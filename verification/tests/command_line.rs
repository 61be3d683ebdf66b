use rusty_dds::command::{decode_target, parse_decode, parse_dxgi_tag, parse_encode, Refusal};
use rusty_dds::content::DecodeContent;
use rusty_dds::encode::EncodeLayout;
use rusty_dds::format::DxgiFormat;
use rusty_dds::surface::SubresourceId;
use rusty_dds::text::read_number;

fn args(line: &str) -> Vec<String> {
    line.split_whitespace().map(|s| s.to_string()).collect()
}

#[test]
fn numbers() {
    for s in ["0", "7", "+7", "4294967295", "007"] {
        assert_eq!(read_number(s), s.parse::<u32>().ok(), "{s}");
    }
    for s in ["", "+", "-1", "1x", " 1", "4294967296", "99999999999999999999", "1_0"] {
        assert_eq!(read_number(s), None, "{s}");
        assert!(s.parse::<u32>().is_err());
    }
}

#[test]
fn decode_lines() {
    let c = parse_decode(&args("a.dds --mip 2 --layer 3 --face 1 -o b.rgba")).unwrap();
    assert_eq!((c.path.as_str(), c.out.as_deref()), ("a.dds", Some("b.rgba")));
    assert_eq!((c.mip, c.layer, c.face), (2, 3, 1));
    let c = parse_decode(&args("--mip x a.dds --output")).unwrap();
    assert_eq!((c.path.as_str(), c.out, c.mip), ("a.dds", None, 0));
    assert_eq!(parse_decode(&args("--mip 2")).unwrap_err(), Refusal::Usage);
    assert_eq!(
        parse_decode(&args("a.dds b.dds")).unwrap_err(),
        Refusal::UnknownArgument("b.dds".to_string())
    );
    assert_eq!(
        parse_decode(&args("--what a.dds")).unwrap_err(),
        Refusal::UnknownArgument("--what".to_string())
    );
}

#[test]
fn encode_lines() {
    let c = parse_encode(&args("--width 8 --height 4 --format BC7 in.rgba -o out.dds --mips 2")).unwrap();
    assert_eq!((c.input.as_str(), c.out.as_deref()), ("in.rgba", Some("out.dds")));
    assert_eq!(c.layout, EncodeLayout::flat_2d(DecodeContent::Bc7, 8, 4).with_mips(2));
    let c = parse_encode(&args("in.rgba -f rgba8 --width 8 --height 8 --cubemap --array 0 --depth z")).unwrap();
    assert_eq!(c.layout, EncodeLayout::flat_2d(DecodeContent::Rgba8, 8, 8).cubemap());
    assert_eq!(c.layout.array_layers, 6);
    assert_eq!(parse_encode(&args("--width 8 --format bc7 in.rgba")).unwrap_err(), Refusal::Usage);
    assert_eq!(
        parse_encode(&args("--width 8 --height 8 --format bc9 in.rgba")).unwrap_err(),
        Refusal::UnknownFormat("bc9".to_string())
    );
    assert_eq!(
        parse_encode(&args("--width 8 -x")).unwrap_err(),
        Refusal::UnknownArgument("-x".to_string())
    );
}

#[test]
fn targets_and_tags() {
    assert_eq!(decode_target(false, 1, 2, 9), Some(SubresourceId::mip_layer(1, 2)));
    assert_eq!(decode_target(true, 1, 2, 5), Some(SubresourceId::new(1, 2, 5)));
    assert_eq!(decode_target(true, 1, 2, 6), None);
    assert_eq!(parse_dxgi_tag("BC7_UNorm_sRGB"), Some(DxgiFormat::BC7_UNorm_sRGB));
    assert_eq!(parse_dxgi_tag("BC1_UNorm"), Some(DxgiFormat::BC1_UNorm));
    assert_eq!(parse_dxgi_tag("bc1_unorm"), None);
    assert_eq!(parse_dxgi_tag("BC6H_UF16"), None);
}
