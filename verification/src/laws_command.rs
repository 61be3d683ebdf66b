//! What a command line says, told by its first argument and the rest, and what
//! numbers in it are.

use vstd::prelude::*;

use crate::command::{argument, decode_words, dxgi_tag, encode_words, is_option, meant, number_at, or_else, DecodeWords, EncodeWords};
use crate::content::DecodeContent;
use crate::dds::{DdsBase, Payload};
use crate::encode::blocks::EncodeQuality;
use crate::encode::Rdo;
use crate::format::DxgiFormat;
use crate::surface::SubresourceId;
use crate::text::{decimal, digit_value, fold, lemma_decimal_grows, number_in, unsigned_digits};
use crate::upload::dxgi_gpu;

verus! {

/// The number in a text, or another where it has none.
pub open spec fn number_or(s: Seq<char>, other: u32) -> u32 {
    match number_in(s) {
        Some(n) => n,
        None => other,
    }
}

/// One more argument before the others.
pub open spec fn before(s: Seq<char>, rest: Seq<Seq<char>>) -> Seq<Seq<char>> {
    seq![s] + rest
}

proof fn lemma_decode_shift(args: Seq<Seq<char>>, k: nat, i: nat, st: DecodeWords)
    requires
        k <= args.len(),
    ensures
        decode_words(args, k + i, st) == decode_words(args.skip(k as int), i, st),
    decreases args.len() + 2 - i,
{
    let rest = args.skip(k as int);
    if i < rest.len() {
        assert(rest[i as int] == args[(k + i) as int]);
        assert(i + 1 < rest.len() ==> rest[i as int + 1] == args[(k + i) as int + 1]);
        let w = args[(k + i) as int];
        let n = or_else(number_at(rest, i + 1), 0);
        assert(argument(rest, i + 1) == argument(args, k + i + 1));
        if w == "--mip"@ {
            lemma_decode_shift(args, k, i + 2, DecodeWords { mip: n, ..st });
        } else if w == "--layer"@ {
            lemma_decode_shift(args, k, i + 2, DecodeWords { layer: n, ..st });
        } else if w == "--face"@ {
            lemma_decode_shift(args, k, i + 2, DecodeWords { face: n, ..st });
        } else if w == "-o"@ || w == "--output"@ {
            lemma_decode_shift(args, k, i + 2, DecodeWords { out: argument(rest, i + 1), ..st });
        } else if !is_option(w) && st.path is None {
            lemma_decode_shift(args, k, i + 1, DecodeWords { path: Some(w), ..st });
        }
    }
}

/// Nothing more to say leaves what was said.
pub proof fn law_decode_ends(st: DecodeWords)
    ensures
        decode_words(Seq::empty(), 0, st) == Ok::<DecodeWords, Seq<char>>(st),
{
}

/// An option and the argument after it set one thing, and the rest goes on from
/// there: `--mip`, `--layer` and `--face` a number, zero where it is none, and `-o`
/// or `--output` a text.
pub proof fn law_decode_options(option: Seq<char>, value: Seq<char>, rest: Seq<Seq<char>>, st: DecodeWords)
    ensures
        ({
            let got = decode_words(before(option, before(value, rest)), 0, st);
            &&& option == "--mip"@ ==> got == decode_words(rest, 0, DecodeWords { mip: number_or(value, 0), ..st })
            &&& option == "--layer"@ ==> got == decode_words(rest, 0, DecodeWords { layer: number_or(value, 0), ..st })
            &&& option == "--face"@ ==> got == decode_words(rest, 0, DecodeWords { face: number_or(value, 0), ..st })
            &&& option == "-o"@ || option == "--output"@ ==> got == decode_words(
                rest,
                0,
                DecodeWords { out: Some(value), ..st },
            )
        }),
{
    let args = before(option, before(value, rest));
    lemma_decode_literals();
    assert(args[0] == option && args[1] == value);
    assert(args.skip(2) =~= rest);
    lemma_decode_shift(args, 2, 0, DecodeWords { mip: number_or(value, 0), ..st });
    lemma_decode_shift(args, 2, 0, DecodeWords { layer: number_or(value, 0), ..st });
    lemma_decode_shift(args, 2, 0, DecodeWords { face: number_or(value, 0), ..st });
    lemma_decode_shift(args, 2, 0, DecodeWords { out: Some(value), ..st });
}

/// The first argument that is no option is the path; another, or an option that
/// is not known, is refused by name.
pub proof fn law_decode_path(s: Seq<char>, rest: Seq<Seq<char>>, st: DecodeWords)
    requires
        s.len() == 0 || s[0] != '-' || (s != "--mip"@ && s != "--layer"@ && s != "--face"@ && s != "-o"@ && s
            != "--output"@),
    ensures
        ({
            let got = decode_words(before(s, rest), 0, st);
            let plain = s.len() == 0 || s[0] != '-';
            &&& plain && st.path is None ==> got == decode_words(rest, 0, DecodeWords { path: Some(s), ..st })
            &&& !plain || st.path is Some ==> got == Err::<DecodeWords, Seq<char>>(s)
        }),
{
    let args = before(s, rest);
    lemma_decode_literals();
    assert(args[0] == s);
    assert(args.skip(1) =~= rest);
    lemma_decode_shift(args, 1, 0, DecodeWords { path: Some(s), ..st });
}

proof fn lemma_decode_literals()
    ensures
        "--mip"@ != "--layer"@ && "--mip"@ != "--face"@ && "--mip"@ != "-o"@ && "--mip"@ != "--output"@,
        "--layer"@ != "--face"@ && "--layer"@ != "-o"@ && "--layer"@ != "--output"@,
        "--face"@ != "-o"@ && "--face"@ != "--output"@,
        "--mip"@.len() > 0 && "--mip"@[0] == '-',
        "--layer"@.len() > 0 && "--layer"@[0] == '-',
        "--face"@.len() > 0 && "--face"@[0] == '-',
        "-o"@.len() > 0 && "-o"@[0] == '-',
        "--output"@.len() > 0 && "--output"@[0] == '-',
{
    reveal_strlit("--mip");
    reveal_strlit("--layer");
    reveal_strlit("--face");
    reveal_strlit("-o");
    reveal_strlit("--output");
    assert("--mip"@[2] != "--layer"@[2]);
    assert("--mip"@.len() != "--face"@.len());
    assert("--layer"@.len() != "--face"@.len());
    assert("--layer"@[2] != "--output"@[2]);
    assert("--mip"@.len() != "--layer"@.len());
    assert("--layer"@.len() != "--output"@.len());
}

proof fn lemma_encode_shift(args: Seq<Seq<char>>, k: nat, i: nat, st: EncodeWords)
    requires
        k <= args.len(),
    ensures
        encode_words(args, k + i, st) == encode_words(args.skip(k as int), i, st),
    decreases args.len() + 2 - i,
{
    let rest = args.skip(k as int);
    if i < rest.len() {
        assert(rest[i as int] == args[(k + i) as int]);
        assert(i + 1 < rest.len() ==> rest[i as int + 1] == args[(k + i) as int + 1]);
        let w = args[(k + i) as int];
        let n = number_at(rest, i + 1);
        assert(argument(rest, i + 1) == argument(args, k + i + 1));
        if w == "--width"@ {
            lemma_encode_shift(args, k, i + 2, EncodeWords { width: n, ..st });
        } else if w == "--height"@ {
            lemma_encode_shift(args, k, i + 2, EncodeWords { height: n, ..st });
        } else if w == "--depth"@ {
            lemma_encode_shift(args, k, i + 2, EncodeWords { depth: or_else(n, 1), ..st });
        } else if w == "--mips"@ {
            lemma_encode_shift(args, k, i + 2, EncodeWords { mips: or_else(n, 1), ..st });
        } else if w == "--array"@ {
            lemma_encode_shift(args, k, i + 2, EncodeWords { array: or_else(n, 1), ..st });
        } else if w == "--cubemap"@ {
            lemma_encode_shift(args, k, i + 1, EncodeWords { cubemap: true, ..st });
        } else if w == "--format"@ || w == "-f"@ {
            lemma_encode_shift(args, k, i + 2, EncodeWords { format: argument(rest, i + 1), ..st });
        } else if w == "-o"@ || w == "--output"@ {
            lemma_encode_shift(args, k, i + 2, EncodeWords { out: argument(rest, i + 1), ..st });
        } else if !is_option(w) && st.input is None {
            lemma_encode_shift(args, k, i + 1, EncodeWords { input: Some(w), ..st });
        }
    }
}

/// Nothing more to say leaves what was said.
pub proof fn law_encode_ends(st: EncodeWords)
    ensures
        encode_words(Seq::empty(), 0, st) == Ok::<EncodeWords, Seq<char>>(st),
{
}

/// An option and the argument after it set one thing, and the rest goes on from
/// there: the two sides a number or none, the three counts a number or one, and
/// the format and the output a text.
pub proof fn law_encode_options(option: Seq<char>, value: Seq<char>, rest: Seq<Seq<char>>, st: EncodeWords)
    ensures
        ({
            let got = encode_words(before(option, before(value, rest)), 0, st);
            &&& option == "--width"@ ==> got == encode_words(rest, 0, EncodeWords { width: number_in(value), ..st })
            &&& option == "--height"@ ==> got == encode_words(rest, 0, EncodeWords { height: number_in(value), ..st })
            &&& option == "--depth"@ ==> got == encode_words(rest, 0, EncodeWords { depth: number_or(value, 1), ..st })
            &&& option == "--mips"@ ==> got == encode_words(rest, 0, EncodeWords { mips: number_or(value, 1), ..st })
            &&& option == "--array"@ ==> got == encode_words(rest, 0, EncodeWords { array: number_or(value, 1), ..st })
            &&& option == "--format"@ || option == "-f"@ ==> got == encode_words(
                rest,
                0,
                EncodeWords { format: Some(value), ..st },
            )
            &&& option == "-o"@ || option == "--output"@ ==> got == encode_words(
                rest,
                0,
                EncodeWords { out: Some(value), ..st },
            )
        }),
{
    let args = before(option, before(value, rest));
    reveal_strlit("--width");
    reveal_strlit("--height");
    reveal_strlit("--depth");
    reveal_strlit("--mips");
    reveal_strlit("--array");
    reveal_strlit("--cubemap");
    reveal_strlit("--format");
    reveal_strlit("-f");
    reveal_strlit("-o");
    reveal_strlit("--output");
    assert(args[0] == option && args[1] == value);
    assert(args.skip(2) =~= rest);
    assert("--width"@[2] == 'w' && "--height"@[2] == 'h' && "--depth"@[2] == 'd' && "--mips"@[2] == 'm' && "--array"@[2] == 'a'
        && "--cubemap"@[2] == 'c' && "--format"@[2] == 'f' && "--output"@[2] == 'o' && "-f"@[1] == 'f' && "-o"@[1] == 'o');
    assert("-f"@.len() == 2 && "-o"@.len() == 2);
    lemma_encode_shift(args, 2, 0, EncodeWords { width: number_in(value), ..st });
    lemma_encode_shift(args, 2, 0, EncodeWords { height: number_in(value), ..st });
    lemma_encode_shift(args, 2, 0, EncodeWords { depth: number_or(value, 1), ..st });
    lemma_encode_shift(args, 2, 0, EncodeWords { mips: number_or(value, 1), ..st });
    lemma_encode_shift(args, 2, 0, EncodeWords { array: number_or(value, 1), ..st });
    lemma_encode_shift(args, 2, 0, EncodeWords { format: Some(value), ..st });
    lemma_encode_shift(args, 2, 0, EncodeWords { out: Some(value), ..st });
}

/// `--cubemap` stands alone; the first argument that is no option is the input, and
/// another, or an option that is not known, is refused by name.
pub proof fn law_encode_others(s: Seq<char>, rest: Seq<Seq<char>>, st: EncodeWords)
    requires
        s != "--width"@ && s != "--height"@ && s != "--depth"@ && s != "--mips"@ && s != "--array"@ && s != "--format"@ && s
            != "-f"@ && s != "-o"@ && s != "--output"@,
    ensures
        ({
            let got = encode_words(before(s, rest), 0, st);
            let plain = s.len() == 0 || s[0] != '-';
            &&& s == "--cubemap"@ ==> got == encode_words(rest, 0, EncodeWords { cubemap: true, ..st })
            &&& plain && st.input is None ==> got == encode_words(rest, 0, EncodeWords { input: Some(s), ..st })
            &&& s != "--cubemap"@ && (!plain || st.input is Some) ==> got == Err::<EncodeWords, Seq<char>>(s)
        }),
{
    let args = before(s, rest);
    reveal_strlit("--cubemap");
    assert("--cubemap"@[0] == '-');
    assert(args[0] == s);
    assert(args.skip(1) =~= rest);
    lemma_encode_shift(args, 1, 0, EncodeWords { cubemap: true, ..st });
    lemma_encode_shift(args, 1, 0, EncodeWords { input: Some(s), ..st });
}

/// The layout that is meant has the sides that were said, no count of zero, and for
/// a cubemap at least its six faces.
pub proof fn law_meant_layout(said: EncodeWords, kind: DecodeContent)
    requires
        said.complete(),
    ensures
        ({
            let l = said.layout(kind);
            &&& l.content == kind
            &&& Some(l.width) == said.width && Some(l.height) == said.height
            &&& l.depth >= 1 && (said.depth >= 1 ==> l.depth == said.depth) && (said.depth == 0 ==> l.depth == 1)
            &&& l.mipmap_levels >= 1 && (said.mips >= 1 ==> l.mipmap_levels == said.mips) && (said.mips == 0
                ==> l.mipmap_levels == 1)
            &&& l.is_cubemap == said.cubemap
            &&& said.cubemap ==> l.array_layers >= 6 && (said.array >= 6 ==> l.array_layers == said.array) && (said.array < 6
                ==> l.array_layers == 6)
            &&& !said.cubemap ==> l.array_layers >= 1 && (said.array >= 1 ==> l.array_layers == said.array) && (said.array
                == 0 ==> l.array_layers == 1)
            &&& l.quality == EncodeQuality::Quality && l.rdo == Rdo::Off
        }),
{
}

/// A format is retagged by the DXGI name of its GPU format, and only a format that
/// is not typeless, nor of integers, nor in half precision.
pub proof fn law_tags_are_native_names(f: DxgiFormat)
    ensures
        dxgi_tag(f) matches Some(t) ==> dxgi_gpu(f) matches Some(g) && g.dxgi_name == t,
        dxgi_tag(f) is Some <==> dxgi_gpu(f) is Some && !(f is R8G8B8A8_Typeless) && !(f is R8G8B8A8_UInt) && !(
        f is B8G8R8A8_Typeless) && !(f is BC1_Typeless) && !(f is BC2_Typeless) && !(f is BC3_Typeless) && !(f is BC4_Typeless)
            && !(f is BC5_Typeless) && !(f is BC6H_Typeless) && !(f is BC6H_UF16) && !(f is BC6H_SF16) && !(
        f is BC7_Typeless),
{
}

/// Numbers grow by a digit at a time: a text that spells a number, followed by a
/// digit, spells ten times the number and the digit, where that fits; followed by
/// anything else it spells none.
pub proof fn law_numbers_grow_by_digits(s: Seq<char>, c: char)
    requires
        number_in(s) is Some,
    ensures
        ({
            let n = 10 * number_in(s).unwrap() + (c as u32 - '0' as u32);
            let digit = '0' as u32 <= c as u32 && c as u32 <= '9' as u32;
            &&& digit && n <= u32::MAX ==> number_in(s.push(c)) == Some(n as u32)
            &&& !digit || n > u32::MAX ==> number_in(s.push(c)) is None
        }),
{
    let d = unsigned_digits(s);
    let t = s.push(c);
    assert(unsigned_digits(t) =~= d.push(c));
    lemma_decimal_prefix(d, c, d.len());
    let e = d.push(c);
    assert(e[d.len() as int] == c && e.len() == d.len() + 1);
    assert(decimal(e, e.len()) == (match (decimal(d, d.len()), digit_value(c)) {
        (Some(v), Some(k)) => Some(10 * v + k),
        _ => None,
    }));
    lemma_decimal_grows(d, 0, d.len());
}

proof fn lemma_decimal_prefix(d: Seq<char>, c: char, n: nat)
    requires
        n <= d.len(),
    ensures
        decimal(d.push(c), n) == decimal(d, n),
    decreases n,
{
    if n > 0 {
        lemma_decimal_prefix(d, c, (n - 1) as nat);
        assert(d.push(c)[n - 1] == d[n - 1]);
    }
}

/// The shortest numbers are the digits; no text and a lone sign are none, and a
/// plus sign before a number changes nothing.
pub proof fn law_shortest_numbers(c: char, s: Seq<char>)
    ensures
        number_in(seq![c]) == (if '0' as u32 <= c as u32 && c as u32 <= '9' as u32 {
            Some((c as u32 - '0' as u32) as u32)
        } else {
            None
        }),
        number_in(Seq::empty()) is None,
        s.len() > 0 && s[0] != '+' ==> number_in(seq!['+'] + s) == number_in(s),
{
    reveal_with_fuel(decimal, 2);
    assert(seq![c].len() == 1 && seq![c][0] == c);
    if c == '+' {
        assert(seq![c].skip(1) =~= Seq::empty());
    }
    assert((seq!['+'] + s).skip(1) =~= s);
    assert((seq!['+'] + s)[0] == '+');
}

/// Letters compare without their case, everything else exactly.
pub proof fn law_case_is_folded(a: char, b: char)
    requires
        'a' as u32 <= b as u32 && b as u32 <= 'z' as u32,
    ensures
        fold(seq![a]) == fold(seq![b]) <==> a == b || a as u32 + 32 == b as u32,
{
    if fold(seq![a]) == fold(seq![b]) {
        assert(fold(seq![a])[0] == fold(seq![b])[0]);
    } else {
        assert(fold(seq![a]) =~= fold(seq![b]) || fold(seq![a])[0] != fold(seq![b])[0]);
    }
}

/// Texts compare letter by letter, and what is no letter compares exactly.
pub proof fn law_texts_compare_by_letter(s: Seq<char>, t: Seq<char>, a: char, b: char)
    ensures
        fold(s.push(a)) == fold(t.push(b)) <==> fold(s) == fold(t) && fold(seq![a]) == fold(seq![b]),
        fold(s) == fold(t) ==> s.len() == t.len(),
        fold(s) == fold(s),
        !('A' as u32 <= a as u32 && a as u32 <= 'Z' as u32) && !('a' as u32 <= a as u32 && a as u32 <= 'z' as u32) ==> (fold(
            seq![a],
        ) == fold(seq![b]) <==> a == b),
{
    let (x, y) = (fold(s.push(a)), fold(t.push(b)));
    assert(fold(s).len() == s.len() && fold(t).len() == t.len());
    assert(fold(seq![a])[0] == x.last() && fold(seq![b])[0] == y.last());
    assert(x.drop_last() =~= fold(s) && y.drop_last() =~= fold(t));
    assert(x =~= fold(s).push(x.last()) && y =~= fold(t).push(y.last()));
    assert(fold(seq![a]) =~= seq![x.last()] && fold(seq![b]) =~= seq![y.last()]);
    if fold(seq![a]) == fold(seq![b]) {
        assert(x.last() == y.last());
    }
}

/// A decode command means the level, layer and face that it names: of a texture that
/// has it that subresource, and of one without faces its only face. A face past the
/// sixth of a cubemap is none.
pub proof fn law_meant_subresource<D: Payload>(dds: DdsBase<D>, id: SubresourceId)
    ensures
        dds.has(id) ==> meant(dds.cube(), id.mip, id.layer, id.face) == Some(id),
        !dds.cube() ==> meant(false, id.mip, id.layer, id.face) == meant(false, id.mip, id.layer, 0),
        meant(dds.cube(), id.mip, id.layer, id.face) matches Some(t) ==> t.face < dds.subresource_faces() && t.mip == id.mip
            && t.layer == id.layer,
        meant(dds.cube(), id.mip, id.layer, id.face) is None <==> dds.cube() && id.face > 5,
{
}

} // verus!
