//! Character-level helpers shared by the path, tree and arithmetic modules.
use vstd::prelude::*;
use vstd::std_specs::iter::IteratorSpec;
use vstd::string::StringSliceAdditionalSpecFns;
use vstd::utf8::{
    encode_utf8, is_char_boundary, is_continuation_byte, length_of_first_scalar, pop_first_scalar, valid_first_scalar, valid_utf8,
};

verus! {

/// Appends one character to a string (`String::push`).
#[verifier::external_body]
pub fn push_char(s: &mut String, c: char)
    ensures
        final(s)@ == old(s)@.push(c),
{
    s.push(c);
}

/// The characters of `s`, in order.
pub fn chars_of(s: &str) -> (v: Vec<char>)
    ensures
        v@ == s@,
{
    let mut v: Vec<char> = Vec::new();
    let mut it = s.chars();
    proof {
        broadcast use vstd::string::group_string_axioms;
    }
    loop
        invariant
            it.obeys_prophetic_iter_laws(),
            it.decrease() is Some,
            v@ + it.remaining() == s@,
        decreases it.decrease()->0,
    {
        match it.next() {
            Some(c) => {
                v.push(c);
            },
            None => {
                return v;
            },
        }
    }
}

} // verus!

verus! {

/// A string holding exactly the characters `v`.
pub fn string_of(v: &Vec<char>) -> (s: String)
    ensures
        s@ == v@,
{
    let mut s = String::new();
    let mut i: usize = 0;
    while i < v.len()
        invariant
            i <= v.len(),
            s@ == v@.take(i as int),
        decreases v.len() - i,
    {
        push_char(&mut s, v[i]);
        i = i + 1;
        assert(s@ =~= v@.take(i as int));
    }
    assert(v@.take(v.len() as int) =~= v@);
    s
}

/// Appends every character of `v` to `s`.
pub fn push_chars(s: &mut String, v: &Vec<char>)
    ensures
        final(s)@ == old(s)@ + v@,
{
    let mut i: usize = 0;
    while i < v.len()
        invariant
            i <= v.len(),
            s@ == old(s)@ + v@.take(i as int),
        decreases v.len() - i,
    {
        push_char(s, v[i]);
        i = i + 1;
        assert(s@ =~= old(s)@ + v@.take(i as int));
    }
    assert(v@.take(v.len() as int) =~= v@);
}

/// Appends every character of `t` to `s`.
pub fn push_str(s: &mut String, t: &str)
    ensures
        final(s)@ == old(s)@ + t@,
{
    let v = chars_of(t);
    push_chars(s, &v);
}

/// The views of a sequence of character vectors.
pub open spec fn char_seqs(v: Seq<Vec<char>>) -> Seq<Seq<char>> {
    v.map_values(|x: Vec<char>| x@)
}

} // verus!

verus! {

// ── Lexicographic order on character sequences ──────────────────

/// Strict lexicographic order by code point: the order of `String`'s
/// `Ord` (byte-wise UTF-8 order coincides with code-point order).
pub open spec fn chars_lt(a: Seq<char>, b: Seq<char>) -> bool
    decreases a.len(),
{
    if a.len() == 0 {
        b.len() > 0
    } else if b.len() == 0 {
        false
    } else if a[0] == b[0] {
        chars_lt(a.drop_first(), b.drop_first())
    } else {
        (a[0] as int) < (b[0] as int)
    }
}

pub proof fn lemma_chars_lt_irreflexive(a: Seq<char>)
    ensures
        !chars_lt(a, a),
    decreases a.len(),
{
    if a.len() > 0 {
        lemma_chars_lt_irreflexive(a.drop_first());
    }
}

pub proof fn lemma_chars_lt_asymmetric(a: Seq<char>, b: Seq<char>)
    ensures
        chars_lt(a, b) ==> !chars_lt(b, a),
    decreases a.len(),
{
    if a.len() > 0 && b.len() > 0 && a[0] == b[0] {
        lemma_chars_lt_asymmetric(a.drop_first(), b.drop_first());
    }
}

pub proof fn lemma_chars_lt_transitive(a: Seq<char>, b: Seq<char>, c: Seq<char>)
    ensures
        chars_lt(a, b) && chars_lt(b, c) ==> chars_lt(a, c),
    decreases a.len(),
{
    if a.len() > 0 && b.len() > 0 && c.len() > 0 {
        lemma_chars_lt_transitive(a.drop_first(), b.drop_first(), c.drop_first());
    }
}

pub proof fn lemma_chars_lt_total(a: Seq<char>, b: Seq<char>)
    ensures
        a != b ==> chars_lt(a, b) || chars_lt(b, a),
    decreases a.len(),
{
    if a.len() == 0 {
        assert(b.len() == 0 ==> a =~= b);
    } else if b.len() > 0 {
        if a[0] == b[0] {
            lemma_chars_lt_total(a.drop_first(), b.drop_first());
            if a.drop_first() == b.drop_first() {
                assert(a =~= seq![a[0]] + a.drop_first());
                assert(b =~= seq![b[0]] + b.drop_first());
            }
        } else {
            assert((a[0] as int) != (b[0] as int));
        }
    }
}

/// Three-way comparison of character vectors in [`chars_lt`] order:
/// negative, zero or positive.
pub fn compare_chars(a: &Vec<char>, b: &Vec<char>) -> (c: i8)
    ensures
        c < 0 <==> chars_lt(a@, b@),
        c == 0 <==> a@ == b@,
        c > 0 <==> chars_lt(b@, a@),
{
    let mut i: usize = 0;
    proof {
        assert(a@.skip(0) =~= a@);
        assert(b@.skip(0) =~= b@);
    }
    while i < a.len() && i < b.len() && a[i] == b[i]
        invariant
            i <= a.len(),
            i <= b.len(),
            a@.take(i as int) == b@.take(i as int),
            chars_lt(a@, b@) == chars_lt(a@.skip(i as int), b@.skip(i as int)),
            chars_lt(b@, a@) == chars_lt(b@.skip(i as int), a@.skip(i as int)),
        decreases a.len() - i,
    {
        assert(a@.skip(i as int).drop_first() =~= a@.skip(i + 1));
        assert(b@.skip(i as int).drop_first() =~= b@.skip(i + 1));
        assert(a@.take(i + 1) =~= a@.take(i as int).push(a@[i as int]));
        assert(b@.take(i + 1) =~= b@.take(i as int).push(b@[i as int]));
        i = i + 1;
    }
    proof {
        lemma_chars_lt_asymmetric(a@, b@);
        lemma_chars_lt_irreflexive(a@);
        lemma_chars_lt_total(a@, b@);
    }
    let ghost sa = a@.skip(i as int);
    let ghost sb = b@.skip(i as int);
    if i == a.len() && i == b.len() {
        assert(a@ =~= a@.take(i as int));
        assert(b@ =~= b@.take(i as int));
        0
    } else if i == a.len() {
        assert(a@.len() != b@.len());
        assert(sa.len() == 0 && sb.len() > 0);
        -1
    } else if i == b.len() {
        assert(a@.len() != b@.len());
        assert(sb.len() == 0 && sa.len() > 0);
        1
    } else if a[i] < b[i] {
        assert(sa[0] == a@[i as int] && sb[0] == b@[i as int]);
        assert(a@[i as int] != b@[i as int]);
        -1
    } else {
        assert(sa[0] == a@[i as int] && sb[0] == b@[i as int]);
        assert(a@[i as int] != b@[i as int]);
        1
    }
}

// ── UTF-8 spans ────────────────────────────────────────────────────

/// The encoding of a concatenation is the concatenation of the encodings.
pub proof fn lemma_encode_concat(a: Seq<char>, c: Seq<char>)
    ensures
        encode_utf8(a + c) == encode_utf8(a) + encode_utf8(c),
    decreases a.len(),
{
    if a.len() > 0 {
        assert((a + c).drop_first() =~= a.drop_first() + c);
        assert((a + c)[0] == a[0]);
        lemma_encode_concat(a.drop_first(), c);
        assert(encode_utf8(a + c) =~= encode_utf8(a) + encode_utf8(c));
    } else {
        assert(a + c =~= c);
        assert(encode_utf8(a) + encode_utf8(c) =~= encode_utf8(c));
    }
}

/// An ASCII byte taken as a character encodes as that byte.
pub proof fn lemma_encode_ascii(x: u8)
    requires
        x < 0x80,
    ensures
        encode_utf8(seq![x as char]) == seq![x],
{
    let v: u32 = (x as char) as u32;
    assert(v == x as u32);
    assert((v & 0x7F) as u8 == x) by (bit_vector)
        requires
            v == x as u32,
            x < 0x80,
    ;
    let cs = seq![x as char];
    assert(cs.drop_first() =~= Seq::<char>::empty());
    assert(encode_utf8(cs.drop_first()) =~= Seq::<u8>::empty());
    assert(cs[0] as u32 == v);
    assert(vstd::utf8::encode_scalar(v) =~= seq![x]);
    assert(encode_utf8(cs) =~= seq![x]);
}

/// In well-formed UTF-8 every position that is the end or holds no
/// continuation byte is a character boundary.
pub proof fn lemma_boundary_at(bytes: Seq<u8>, i: int)
    requires
        valid_utf8(bytes),
        0 <= i <= bytes.len(),
        i == bytes.len() || !is_continuation_byte(bytes[i]),
    ensures
        is_char_boundary(bytes, i),
    decreases bytes.len(),
{
    if i > 0 {
        let l = length_of_first_scalar(bytes);
        assert(i >= l);
        let rest = pop_first_scalar(bytes);
        if i < bytes.len() {
            assert(rest[i - l] == bytes[i]);
        }
        lemma_boundary_at(rest, i - l);
    }
}

/// In well-formed UTF-8 the byte after an ASCII byte is no continuation
/// byte.
pub proof fn lemma_after_ascii(bytes: Seq<u8>, i: int)
    requires
        valid_utf8(bytes),
        0 <= i,
        i + 1 < bytes.len(),
        bytes[i] < 0x80,
    ensures
        !is_continuation_byte(bytes[i + 1]),
    decreases bytes.len(),
{
    let l = length_of_first_scalar(bytes);
    let rest = pop_first_scalar(bytes);
    assert(valid_first_scalar(bytes));
    assert(1 <= l <= bytes.len());
    assert(rest.len() == bytes.len() - l);
    assert(valid_utf8(rest));
    assert(i >= l || i == 0);
    if i + 1 == l {
        assert(rest[0] == bytes[i + 1]);
        assert(valid_first_scalar(rest));
    } else {
        assert(i >= l);
        assert(rest[i - l] == bytes[i]);
        assert(rest[i - l + 1] == bytes[i + 1]);
        lemma_after_ascii(rest, i - l);
    }
}

/// The bytes `a..c` of `s` as a string slice, where neither end cuts a
/// character.
pub fn byte_span(s: &str, a: usize, c: usize) -> (t: &str)
    requires
        a <= c <= s.spec_bytes().len(),
        a == s.spec_bytes().len() || !is_continuation_byte(s.spec_bytes()[a as int]),
        c == s.spec_bytes().len() || !is_continuation_byte(s.spec_bytes()[c as int]),
    ensures
        encode_utf8(t@) == s.spec_bytes().subrange(a as int, c as int),
{
    proof {
        broadcast use vstd::utf8::encode_utf8_valid_utf8;
        lemma_boundary_at(s.spec_bytes(), a as int);
    }
    let (_, rest) = s.split_at(a);
    proof {
        broadcast use vstd::utf8::encode_utf8_valid_utf8;
        let rb = rest.spec_bytes();
        if (c as int) < s.spec_bytes().len() {
            assert(rb[c - a] == s.spec_bytes()[c as int]);
        }
        lemma_boundary_at(rb, c - a);
    }
    let (mid, _) = rest.split_at(c - a);
    proof {
        assert(mid.spec_bytes() =~= s.spec_bytes().subrange(a as int, c as int));
    }
    mid
}

} // verus!
