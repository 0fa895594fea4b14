//! Decoding of the UTF-16 code units that NTFS stores file names in.
use vstd::prelude::*;

verus! {

/// `char::from_u32` gives the character of a code point, and nothing for a number that is
/// none: a surrogate, or one past `0x10FFFF`.
pub assume_specification[ char::from_u32 ](i: u32) -> (r: Option<char>)
    ensures
        r == (if i < 0xD800 || 0xE000 <= i <= 0x10FFFF {
            Some(i as char)
        } else {
            None
        }),
;

/// `String::push` appends one character.
pub assume_specification[ String::push ](s: &mut String, c: char)
    ensures
        final(s)@ == old(s)@.push(c),
;

/// What stands for a surrogate without its partner: U+FFFD.
pub const REPLACEMENT: char = '\u{FFFD}';

/// The first half of a surrogate pair.
pub open spec fn is_leading_surrogate(u: u16) -> bool {
    0xD800 <= u <= 0xDBFF
}

/// The second half of a surrogate pair.
pub open spec fn is_trailing_surrogate(u: u16) -> bool {
    0xDC00 <= u <= 0xDFFF
}

/// The character that a surrogate pair encodes.
pub open spec fn pair_char(lead: u16, trail: u16) -> char {
    (0x10000 + (lead - 0xD800) * 0x400 + (trail - 0xDC00)) as char
}

/// The text that UTF-16 code units encode, with the replacement character for every surrogate
/// that is not part of a pair.
pub open spec fn utf16_text(units: Seq<u16>) -> Seq<char>
    decreases units.len(),
{
    if units.len() == 0 {
        Seq::empty()
    } else if is_leading_surrogate(units[0]) && units.len() >= 2 && is_trailing_surrogate(
        units[1],
    ) {
        seq![pair_char(units[0], units[1])] + utf16_text(units.skip(2))
    } else if is_leading_surrogate(units[0]) || is_trailing_surrogate(units[0]) {
        seq![REPLACEMENT] + utf16_text(units.skip(1))
    } else {
        seq![units[0] as char] + utf16_text(units.skip(1))
    }
}

/// Units below `0x80` stand for themselves.
pub proof fn lemma_ascii_text(units: Seq<u16>)
    requires
        forall|i: int| 0 <= i < units.len() ==> #[trigger] units[i] < 0x80,
    ensures
        utf16_text(units) == Seq::new(units.len(), |i: int| units[i] as char),
    decreases units.len(),
{
    if units.len() > 0 {
        lemma_ascii_text(units.skip(1));
        assert(utf16_text(units) =~= Seq::new(units.len(), |i: int| units[i] as char));
    }
}

/// Units decode piece by piece, unless a surrogate pair is cut in two.
pub proof fn lemma_pieces_decoded(a: Seq<u16>, b: Seq<u16>)
    requires
        !(a.len() > 0 && b.len() > 0 && 0xD800 <= a.last() <= 0xDBFF && 0xDC00 <= b[0] <= 0xDFFF),
    ensures
        utf16_text(a + b) == utf16_text(a) + utf16_text(b),
    decreases a.len(),
{
    let whole = a + b;
    if a.len() == 0 {
        assert(whole =~= b);
        assert(utf16_text(a) + utf16_text(b) =~= utf16_text(b));
    } else if is_leading_surrogate(a[0]) && a.len() >= 2 && is_trailing_surrogate(a[1]) {
        assert(whole.skip(2) =~= a.skip(2) + b);
        lemma_pieces_decoded(a.skip(2), b);
        assert(utf16_text(whole) =~= utf16_text(a) + utf16_text(b));
    } else {
        assert(whole.skip(1) =~= a.skip(1) + b);
        lemma_pieces_decoded(a.skip(1), b);
        assert(utf16_text(whole) =~= utf16_text(a) + utf16_text(b));
    }
}

/// What one more unit adds to the text: the character of its code point, unless it is a
/// surrogate; U+FFFD for a surrogate without a partner so far; and the character of the pair, in
/// place of that U+FFFD, when its partner comes.
pub proof fn lemma_unit_decoded(a: Seq<u16>, u: u16)
    ensures
        utf16_text(Seq::<u16>::empty()) == Seq::<char>::empty(),
        u < 0xD800 || u > 0xDFFF ==> utf16_text(a.push(u)) == utf16_text(a).push(u as char),
        0xD800 <= u <= 0xDBFF ==> utf16_text(a.push(u)) == utf16_text(a).push('\u{FFFD}'),
        0xDC00 <= u <= 0xDFFF && (a.len() == 0 || a.last() < 0xD800 || a.last() > 0xDBFF)
            ==> utf16_text(a.push(u)) == utf16_text(a).push('\u{FFFD}'),
        0xDC00 <= u <= 0xDFFF && a.len() > 0 && 0xD800 <= a.last() <= 0xDBFF ==> utf16_text(
            a.push(u),
        ) == utf16_text(a.drop_last()).push(
            (0x10000 + (a.last() - 0xD800) * 0x400 + (u - 0xDC00)) as char,
        ),
{
    let one = seq![u];
    assert(one.skip(1) =~= Seq::<u16>::empty());
    assert(utf16_text(one.skip(1)) =~= Seq::<char>::empty());
    if 0xDC00 <= u <= 0xDFFF && a.len() > 0 && 0xD800 <= a.last() <= 0xDBFF {
        let pair = seq![a.last(), u];
        assert(pair.skip(2) =~= Seq::<u16>::empty());
        assert(a.push(u) =~= a.drop_last() + pair);
        lemma_pieces_decoded(a.drop_last(), pair);
        assert(utf16_text(a.push(u)) =~= utf16_text(a.drop_last()).push(
            (0x10000 + (a.last() - 0xD800) * 0x400 + (u - 0xDC00)) as char,
        ));
    } else {
        assert(a.push(u) =~= a + one);
        lemma_pieces_decoded(a, one);
        assert(utf16_text(one) =~= seq![utf16_text(one)[0]]);
        assert(utf16_text(a.push(u)) =~= utf16_text(a).push(utf16_text(one)[0]));
    }
}

/// Every character is a code point other than a surrogate.
proof fn lemma_char_range(c: char)
    ensures
        0 <= c as int <= 0x10FFFF,
        !(0xD800 <= c as int <= 0xDFFF),
{
}

/// Decoding undoes encoding: whatever the text, the units that stand for its characters, one
/// unit each or a surrogate pair each, decode to it.
pub proof fn lemma_decoding_undoes_encoding(text: Seq<char>, units: Seq<Seq<u16>>)
    requires
        units.len() == text.len(),
        forall|i: int|
            0 <= i < text.len() ==> #[trigger] units[i] == (if (text[i] as int) < 0x10000 {
                seq![text[i] as u16]
            } else {
                seq![
                    (0xD800 + (text[i] as int - 0x10000) / 0x400) as u16,
                    (0xDC00 + (text[i] as int - 0x10000) % 0x400) as u16,
                ]
            }),
    ensures
        utf16_text(units.flatten()) == text,
    decreases text.len(),
{
    if text.len() == 0 {
        assert(units.flatten() =~= Seq::<u16>::empty());
        assert(text =~= Seq::<char>::empty());
    } else {
        let c = text[0];
        let first = units[0];
        lemma_char_range(c);
        let none = Seq::<u16>::empty();
        let rest = units.drop_first();
        assert(units.first() == first);
        lemma_decoding_undoes_encoding(text.drop_first(), rest);
        assert(units.flatten() =~= first + rest.flatten());
        if (c as int) < 0x10000 {
            assert(none.push(c as u16) =~= first);
            lemma_unit_decoded(none, c as u16);
        } else {
            let hi = (0xD800 + (c as int - 0x10000) / 0x400) as u16;
            let lo = (0xDC00 + (c as int - 0x10000) % 0x400) as u16;
            assert(none.push(hi).push(lo) =~= first);
            assert(none.push(hi).drop_last() =~= none);
            lemma_unit_decoded(none.push(hi), lo);
            assert(0x10000 + (hi - 0xD800) * 0x400 + (lo - 0xDC00) == c as int);
        }
        assert(utf16_text(first) =~= seq![c]);
        lemma_pieces_decoded(first, rest.flatten());
        assert(utf16_text(units.flatten()) =~= seq![c] + text.drop_first());
        assert(seq![c] + text.drop_first() =~= text);
    }
}

/// Decodes UTF-16 code units; a surrogate that is not part of a pair becomes U+FFFD.
pub fn decode_name(units: &[u16]) -> (s: String)
    ensures
        s@ == utf16_text(units@),
{
    let n: usize = units.len();
    let mut ascii: usize = 0;
    while ascii < n && units[ascii] < 0x80
        invariant
            n == units@.len(),
            ascii <= n,
            forall|i: int| 0 <= i < ascii ==> #[trigger] units@[i] < 0x80,
        decreases n - ascii,
    {
        ascii = ascii + 1;
    }
    let mut s: String = String::new();
    let mut i: usize = 0;
    if ascii == n {
        while i < n
            invariant
                n == units@.len(),
                i <= n,
                forall|j: int| 0 <= j < n ==> #[trigger] units@[j] < 0x80,
                s@ == Seq::new(i as nat, |j: int| units@[j] as char),
            decreases n - i,
        {
            let byte: u8 = units[i] as u8;
            s.push(byte as char);
            i = i + 1;
        }
        proof {
            lemma_ascii_text(units@);
        }
        return s;
    }
    proof {
        assert(units@.skip(0) =~= units@);
    }
    while i < n
        invariant
            n == units@.len(),
            i <= n,
            utf16_text(units@) == s@ + utf16_text(units@.skip(i as int)),
        decreases n - i,
    {
        let u: u16 = units[i];
        let ghost left = units@.skip(i as int);
        proof {
            assert(left.skip(1) =~= units@.skip(i + 1));
            if i + 2 <= n {
                assert(left.skip(2) =~= units@.skip(i + 2));
            }
        }
        if u < 0xD800 || u > 0xDFFF {
            let c: Option<char> = char::from_u32(u as u32);
            if let Some(ch) = c {
                assert(ch == u as char);
                s.push(ch);
            }
            i = i + 1;
        } else if u < 0xDC00 && i + 1 < n && 0xDC00 <= units[i + 1] && units[i + 1] <= 0xDFFF {
            let low: u16 = units[i + 1];
            let code: u32 = 0x10000 + (u as u32 - 0xD800) * 0x400 + (low as u32 - 0xDC00);
            let c: Option<char> = char::from_u32(code);
            if let Some(ch) = c {
                assert(ch == pair_char(u, low));
                s.push(ch);
            }
            i = i + 2;
        } else {
            s.push(REPLACEMENT);
            i = i + 1;
        }
        assert(utf16_text(units@) =~= s@ + utf16_text(units@.skip(i as int)));
    }
    proof {
        assert(units@.skip(n as int) =~= Seq::<u16>::empty());
        assert(s@ + Seq::<char>::empty() =~= s@);
    }
    s
}

} // verus!
