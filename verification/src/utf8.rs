//! UTF-8: the bytes of text, and that different texts have different bytes.

use vstd::prelude::*;

verus! {

/// The UTF-8 encoding of one character.
pub open spec fn utf8_char(c: char) -> Seq<u8> {
    let n = c as u32;
    if n < 0x80 {
        seq![n as u8]
    } else if n < 0x800 {
        seq![(0xC0 | (n >> 6)) as u8, (0x80 | (n & 0x3F)) as u8]
    } else if n < 0x10000 {
        seq![(0xE0 | (n >> 12)) as u8, (0x80 | ((n >> 6) & 0x3F)) as u8, (0x80 | (n & 0x3F)) as u8]
    } else {
        seq![
            (0xF0 | (n >> 18)) as u8,
            (0x80 | ((n >> 12) & 0x3F)) as u8,
            (0x80 | ((n >> 6) & 0x3F)) as u8,
            (0x80 | (n & 0x3F)) as u8,
        ]
    }
}

/// The UTF-8 bytes of a text, `str::as_bytes`.
pub open spec fn utf8(s: Seq<char>) -> Seq<u8>
    decreases s.len(),
{
    if s.len() == 0 {
        seq![]
    } else {
        utf8(s.drop_last()) + utf8_char(s.last())
    }
}

fn push_utf8(dst: &mut Vec<u8>, c: char)
    ensures
        final(dst)@ == old(dst)@ + utf8_char(c),
{
    let n = c as u32;
    let ghost start = dst@;
    if n < 0x80 {
        dst.push(n as u8);
    } else if n < 0x800 {
        dst.push((0xC0 | (n >> 6)) as u8);
        dst.push((0x80 | (n & 0x3F)) as u8);
    } else if n < 0x10000 {
        dst.push((0xE0 | (n >> 12)) as u8);
        dst.push((0x80 | ((n >> 6) & 0x3F)) as u8);
        dst.push((0x80 | (n & 0x3F)) as u8);
    } else {
        dst.push((0xF0 | (n >> 18)) as u8);
        dst.push((0x80 | ((n >> 12) & 0x3F)) as u8);
        dst.push((0x80 | ((n >> 6) & 0x3F)) as u8);
        dst.push((0x80 | (n & 0x3F)) as u8);
    }
    assert(dst@ =~= start + utf8_char(c));
}

/// The UTF-8 bytes of `s`.
pub fn utf8_bytes(s: &[char]) -> (r: Vec<u8>)
    ensures
        r@ == utf8(s@),
{
    let mut out: Vec<u8> = Vec::new();
    let mut i: usize = 0;
    while i < s.len()
        invariant
            i <= s.len(),
            out@ == utf8(s@.take(i as int)),
        decreases s.len() - i,
    {
        push_utf8(&mut out, s[i]);
        i = i + 1;
        assert(s@.take(i as int).drop_last() =~= s@.take(i - 1));
    }
    assert(s@.take(i as int) =~= s@);
    out
}

/// The encoding read from the front: the first character's bytes, then the rest's.
pub proof fn lemma_utf8_front(s: Seq<char>)
    requires
        s.len() > 0,
    ensures
        utf8(s) == utf8_char(s[0]) + utf8(s.drop_first()),
    decreases s.len(),
{
    if s.len() == 1 {
        assert(s.drop_first() =~= Seq::<char>::empty());
        assert(s.drop_last() =~= Seq::<char>::empty());
        assert(utf8(s.drop_last()) =~= Seq::<u8>::empty());
        assert(utf8(s.drop_first()) =~= Seq::<u8>::empty());
        assert(utf8(s) =~= utf8_char(s[0]) + utf8(s.drop_first()));
    } else {
        lemma_utf8_front(s.drop_last());
        assert(s.drop_last().drop_first() =~= s.drop_first().drop_last());
        assert(s.drop_first().last() == s.last());
        assert(utf8(s) =~= utf8_char(s[0]) + utf8(s.drop_first()));
    }
}

/// The length of a character's encoding, read off its first byte.
pub open spec fn lead_len(b: u8) -> nat {
    if b < 0x80 {
        1
    } else if b < 0xE0 {
        2
    } else if b < 0xF0 {
        3
    } else {
        4
    }
}

/// A character's first byte tells how many bytes it takes, and none of its bytes is 0 unless
/// the character is NUL.
pub proof fn lemma_char_shape(c: char)
    ensures
        utf8_char(c).len() == lead_len(utf8_char(c)[0]),
        c != '\0' ==> forall|k: int| 0 <= k < utf8_char(c).len() ==> utf8_char(c)[k] != 0,
{
    let n = c as u32;
    assert(n <= 0x10FFFF);
    if n < 0x80 {
        if c != '\0' {
            assert(n != 0);
            assert(n < 0x80 && n != 0 ==> (n as u8) != 0) by (bit_vector);
        }
    } else if n < 0x800 {
        assert(0x80 <= n < 0x800 ==> 0xC0 <= ((0xC0 | (n >> 6)) as u8) && ((0xC0 | (n >> 6)) as u8) < 0xE0)
            by (bit_vector);
        assert(((0x80 | (n & 0x3F)) as u8) >= 0x80) by (bit_vector);
    } else if n < 0x10000 {
        assert(0x800 <= n < 0x10000 ==> 0xE0 <= ((0xE0 | (n >> 12)) as u8) && ((0xE0 | (n >> 12)) as u8) < 0xF0)
            by (bit_vector);
        assert(((0x80 | ((n >> 6) & 0x3F)) as u8) >= 0x80) by (bit_vector);
        assert(((0x80 | (n & 0x3F)) as u8) >= 0x80) by (bit_vector);
    } else {
        assert(0x10000 <= n <= 0x10FFFF ==> ((0xF0 | (n >> 18)) as u8) >= 0xF0) by (bit_vector);
        assert(((0x80 | ((n >> 12) & 0x3F)) as u8) >= 0x80) by (bit_vector);
        assert(((0x80 | ((n >> 6) & 0x3F)) as u8) >= 0x80) by (bit_vector);
        assert(((0x80 | (n & 0x3F)) as u8) >= 0x80) by (bit_vector);
    }
}

/// Different characters have different encodings.
pub proof fn lemma_char_injective(a: char, b: char)
    requires
        utf8_char(a) == utf8_char(b),
    ensures
        a == b,
{
    let x = a as u32;
    let y = b as u32;
    lemma_char_shape(a);
    lemma_char_shape(b);
    assert(x <= 0x10FFFF && y <= 0x10FFFF);
    let ea = utf8_char(a);
    let eb = utf8_char(b);
    assert(ea.len() == eb.len());
    if x < 0x80 {
        assert(y < 0x80);
        assert(ea[0] == eb[0]);
        assert(x < 0x80 && y < 0x80 && (x as u8) == (y as u8) ==> x == y) by (bit_vector);
    } else if x < 0x800 {
        assert(0x80 <= y < 0x800);
        assert(ea[0] == eb[0] && ea[1] == eb[1]);
        assert(0x80 <= x < 0x800 && 0x80 <= y < 0x800 && ((0xC0 | (x >> 6)) as u8) == ((0xC0 | (y
            >> 6)) as u8) && ((0x80 | (x & 0x3F)) as u8) == ((0x80 | (y & 0x3F)) as u8) ==> x == y)
            by (bit_vector);
    } else if x < 0x10000 {
        assert(0x800 <= y < 0x10000);
        assert(ea[0] == eb[0] && ea[1] == eb[1] && ea[2] == eb[2]);
        assert(0x800 <= x < 0x10000 && 0x800 <= y < 0x10000 && ((0xE0 | (x >> 12)) as u8) == ((0xE0
            | (y >> 12)) as u8) && ((0x80 | ((x >> 6) & 0x3F)) as u8) == ((0x80 | ((y >> 6) & 0x3F))
            as u8) && ((0x80 | (x & 0x3F)) as u8) == ((0x80 | (y & 0x3F)) as u8) ==> x == y)
            by (bit_vector);
    } else {
        assert(0x10000 <= y);
        assert(ea[0] == eb[0] && ea[1] == eb[1] && ea[2] == eb[2] && ea[3] == eb[3]);
        assert(0x10000 <= x <= 0x10FFFF && 0x10000 <= y <= 0x10FFFF && ((0xF0 | (x >> 18)) as u8)
            == ((0xF0 | (y >> 18)) as u8) && ((0x80 | ((x >> 12) & 0x3F)) as u8) == ((0x80 | ((y
            >> 12) & 0x3F)) as u8) && ((0x80 | ((x >> 6) & 0x3F)) as u8) == ((0x80 | ((y >> 6)
            & 0x3F)) as u8) && ((0x80 | (x & 0x3F)) as u8) == ((0x80 | (y & 0x3F)) as u8) ==> x
            == y) by (bit_vector);
    }
}

/// Different texts have different UTF-8 bytes.
pub proof fn lemma_utf8_injective(s1: Seq<char>, s2: Seq<char>)
    requires
        utf8(s1) == utf8(s2),
    ensures
        s1 == s2,
    decreases s1.len(),
{
    if s1.len() == 0 || s2.len() == 0 {
        if s1.len() > 0 {
            lemma_utf8_front(s1);
            lemma_char_shape(s1[0]);
        }
        if s2.len() > 0 {
            lemma_utf8_front(s2);
            lemma_char_shape(s2[0]);
        }
        assert(s1 =~= s2);
    } else {
        lemma_utf8_front(s1);
        lemma_utf8_front(s2);
        let e1 = utf8_char(s1[0]);
        let e2 = utf8_char(s2[0]);
        lemma_char_shape(s1[0]);
        lemma_char_shape(s2[0]);
        assert(utf8(s1)[0] == e1[0]);
        assert(utf8(s2)[0] == e2[0]);
        let l = e1.len() as int;
        assert(e2.len() == l);
        assert(e1 =~= utf8(s1).subrange(0, l));
        assert(e2 =~= utf8(s2).subrange(0, l));
        lemma_char_injective(s1[0], s2[0]);
        assert(utf8(s1.drop_first()) =~= utf8(s1).subrange(l, utf8(s1).len() as int));
        assert(utf8(s2.drop_first()) =~= utf8(s2).subrange(l, utf8(s2).len() as int));
        lemma_utf8_injective(s1.drop_first(), s2.drop_first());
        assert(s1 =~= seq![s1[0]] + s1.drop_first());
        assert(s2 =~= seq![s2[0]] + s2.drop_first());
    }
}

/// A text without NUL has no zero byte.
pub proof fn lemma_utf8_nonzero(s: Seq<char>)
    requires
        !s.contains('\0'),
    ensures
        forall|k: int| 0 <= k < utf8(s).len() ==> utf8(s)[k] != 0,
    decreases s.len(),
{
    if s.len() > 0 {
        assert(!s.drop_last().contains('\0')) by {
            if s.drop_last().contains('\0') {
                let k = choose|k: int| 0 <= k < s.drop_last().len() && s.drop_last()[k] == '\0';
                assert(s[k] == '\0');
            }
        }
        lemma_utf8_nonzero(s.drop_last());
        assert(s[s.len() - 1] == s.last());
        lemma_char_shape(s.last());
        let a = utf8(s.drop_last());
        let b = utf8_char(s.last());
        assert forall|k: int| 0 <= k < utf8(s).len() implies utf8(s)[k] != 0 by {
            if k < a.len() {
                assert(utf8(s)[k] == a[k]);
            } else {
                assert(utf8(s)[k] == b[k - a.len()]);
            }
        }
    }
}

} // verus!
