//! Questions about byte strings that the parsers share: where a byte stands
//! first or last, what number a run of decimal digits writes, and how a string
//! falls into pieces at a separator.

use vstd::prelude::*;

verus! {

/// `' '`
pub const SPACE: u8 = 0x20;

/// `'%'`
pub const PERCENT: u8 = 0x25;

/// `'+'`
pub const PLUS: u8 = 0x2b;

/// `'.'`
pub const DOT: u8 = 0x2e;

/// `'/'`
pub const SLASH: u8 = 0x2f;

/// `':'`
pub const COLON: u8 = 0x3a;

/// `'['`
pub const OPEN_BRACKET: u8 = 0x5b;

/// `']'`
pub const CLOSE_BRACKET: u8 = 0x5d;

/// `'\r'`
pub const CR: u8 = 0x0d;

/// `'\n'`
pub const LF: u8 = 0x0a;

/// `b` is one of `'0'` to `'9'`.
pub open spec fn is_digit(b: u8) -> bool {
    0x30 <= b <= 0x39
}

/// The number that the digit `b` writes; 0 for any other byte.
pub open spec fn digit_value(b: u8) -> nat {
    if is_digit(b) {
        (b - 0x30) as nat
    } else {
        0
    }
}

/// Every byte of `s` is a decimal digit.
pub open spec fn all_digits(s: Seq<u8>) -> bool {
    forall|i: int| 0 <= i < s.len() ==> is_digit(#[trigger] s[i])
}

/// The number that `s` writes in decimal, most significant digit first.
pub open spec fn decimal_value(s: Seq<u8>) -> nat
    decreases s.len(),
{
    if s.len() == 0 {
        0
    } else {
        decimal_value(s.drop_last()) * 10 + digit_value(s.last())
    }
}

/// `s` is a decimal numeral, leading zeros allowed, of a number up to `max`.
pub open spec fn is_decimal_up_to(s: Seq<u8>, max: nat) -> bool {
    s.len() > 0 && all_digits(s) && decimal_value(s) <= max
}

/// The pieces into which `s` falls at each occurrence of `sep`, in order.
/// There is one piece more than there are separators, and a piece may be
/// empty.
pub open spec fn split(s: Seq<u8>, sep: u8) -> Seq<Seq<u8>>
    decreases s.len(),
{
    if s.len() == 0 {
        seq![Seq::<u8>::empty()]
    } else {
        let before = split(s.drop_last(), sep);
        if s.last() == sep {
            before.push(Seq::<u8>::empty())
        } else {
            before.drop_last().push(before.last().push(s.last()))
        }
    }
}

/// The bytes that each of the vectors `v` holds.
pub open spec fn views(v: Seq<Vec<u8>>) -> Seq<Seq<u8>> {
    v.map_values(|p: Vec<u8>| p@)
}

/// Reading one digit more multiplies by ten and adds the digit.
pub proof fn lemma_decimal_step(s: Seq<u8>, k: int)
    requires
        0 <= k < s.len(),
    ensures
        decimal_value(s.take(k + 1)) == decimal_value(s.take(k)) * 10 + digit_value(s[k]),
{
    assert(s.take(k + 1).drop_last() =~= s.take(k));
}

/// A prefix of a numeral never writes a larger number than the whole.
pub proof fn lemma_decimal_prefix(s: Seq<u8>, k: int)
    requires
        0 <= k <= s.len(),
    ensures
        decimal_value(s.take(k)) <= decimal_value(s),
    decreases s.len(),
{
    if k == s.len() {
        assert(s.take(k) =~= s);
    } else {
        lemma_decimal_prefix(s.drop_last(), k);
        assert(s.drop_last().take(k) =~= s.take(k));
    }
}

/// Splitting gives at least one piece; a single piece is the whole string;
/// and the first piece is how the string begins.
pub proof fn lemma_split_first_piece(s: Seq<u8>, sep: u8)
    ensures
        split(s, sep).len() >= 1,
        split(s, sep).len() == 1 ==> split(s, sep)[0] == s,
        split(s, sep)[0].len() <= s.len(),
        forall|j: int| 0 <= j < split(s, sep)[0].len() ==> split(s, sep)[0][j] == s[j],
    decreases s.len(),
{
    let now = split(s, sep);
    if s.len() > 0 {
        lemma_split_first_piece(s.drop_last(), sep);
        let before = split(s.drop_last(), sep);
        if s.last() != sep && before.len() == 1 {
            assert(before[0].push(s.last()) =~= s);
        } else {
            assert(now[0] == before[0]);
            assert forall|j: int| 0 <= j < now[0].len() implies now[0][j] == s[j] by {
                assert(before[0][j] == s.drop_last()[j]);
            }
        }
    } else {
        assert(now[0] =~= s);
    }
}

/// A place that holds `b`, with no `b` before it, is where `b` stands first.
pub proof fn lemma_first_at(s: Seq<u8>, b: u8, i: int)
    requires
        0 <= i < s.len(),
        s[i] == b,
        forall|j: int| 0 <= j < i ==> s[j] != b,
    ensures
        s.index_of_first(b) == Some(i),
{
    s.index_of_first_ensures(b);
    assert(s.contains(b));
}

/// A place that holds `b`, with no `b` after it, is where `b` stands last.
pub proof fn lemma_last_at(s: Seq<u8>, b: u8, i: int)
    requires
        0 <= i < s.len(),
        s[i] == b,
        forall|j: int| i < j < s.len() ==> s[j] != b,
    ensures
        s.index_of_last(b) == Some(i),
{
    s.index_of_last_ensures(b);
    assert(s.contains(b));
}

/// A string without `b` has neither a first nor a last place for it.
pub proof fn lemma_absent(s: Seq<u8>, b: u8)
    requires
        forall|j: int| 0 <= j < s.len() ==> s[j] != b,
    ensures
        s.index_of_first(b) is None,
        s.index_of_last(b) is None,
{
    s.index_of_first_ensures(b);
    s.index_of_last_ensures(b);
}

/// Where `b` stands first in `s`.
pub fn find_first(s: &[u8], b: u8) -> (r: Option<usize>)
    ensures
        match r {
            Some(i) => i < s.len() && s@.index_of_first(b) == Some(i as int),
            None => s@.index_of_first(b) is None,
        },
{
    let mut i: usize = 0;
    while i < s.len()
        invariant
            i <= s.len(),
            forall|j: int| 0 <= j < i ==> s@[j] != b,
        decreases s.len() - i,
    {
        if s[i] == b {
            proof {
                lemma_first_at(s@, b, i as int);
            }
            return Some(i);
        }
        i = i + 1;
    }
    proof {
        lemma_absent(s@, b);
    }
    None
}

/// Where `b` stands last in `s`.
pub fn find_last(s: &[u8], b: u8) -> (r: Option<usize>)
    ensures
        match r {
            Some(i) => i < s.len() && s@.index_of_last(b) == Some(i as int),
            None => s@.index_of_last(b) is None,
        },
{
    let mut i: usize = s.len();
    while i > 0
        invariant
            i <= s.len(),
            forall|j: int| i <= j < s.len() ==> s@[j] != b,
        decreases i,
    {
        i = i - 1;
        if s[i] == b {
            proof {
                lemma_last_at(s@, b, i as int);
            }
            return Some(i);
        }
    }
    proof {
        lemma_absent(s@, b);
    }
    None
}

/// The number that `s` writes in decimal, if `s` is a numeral of a number up
/// to `max`.
pub fn parse_decimal(s: &[u8], max: u32) -> (r: Option<u32>)
    ensures
        r == if is_decimal_up_to(s@, max as nat) {
            Some(decimal_value(s@) as u32)
        } else {
            None
        },
{
    if s.len() == 0 {
        return None;
    }
    let mut value: u64 = 0;
    let mut i: usize = 0;
    while i < s.len()
        invariant
            i <= s.len(),
            all_digits(s@.take(i as int)),
            value == decimal_value(s@.take(i as int)),
            value <= max,
        decreases s.len() - i,
    {
        let b: u8 = s[i];
        if b < 0x30 || b > 0x39 {
            assert(!all_digits(s@)) by {
                assert(!is_digit(s@[i as int]));
            }
            return None;
        }
        proof {
            lemma_decimal_step(s@, i as int);
            lemma_decimal_prefix(s@, i as int + 1);
        }
        value = value * 10 + (b - 0x30) as u64;
        if value > max as u64 {
            return None;
        }
        assert(all_digits(s@.take(i as int + 1))) by {
            assert forall|j: int| 0 <= j < i as int + 1 implies is_digit(
                #[trigger] s@.take(i as int + 1)[j],
            ) by {
                if j < i {
                    assert(s@.take(i as int)[j] == s@[j]);
                }
            }
        }
        i = i + 1;
    }
    assert(s@.take(i as int) =~= s@);
    Some(value as u32)
}

/// Puts the bytes of `src` behind those of `dst`.
pub fn append(dst: &mut Vec<u8>, src: &[u8])
    ensures
        final(dst)@ == old(dst)@ + src@,
{
    let mut i: usize = 0;
    while i < src.len()
        invariant
            i <= src.len(),
            dst@ == old(dst)@ + src@.take(i as int),
        decreases src.len() - i,
    {
        dst.push(src[i]);
        assert(src@.take(i as int + 1) =~= src@.take(i as int).push(src@[i as int]));
        i = i + 1;
    }
    assert(src@.take(i as int) =~= src@);
}

/// A copy of the bytes of `s` from place `from` up to, not including, `to`.
pub fn copy_range(s: &[u8], from: usize, to: usize) -> (r: Vec<u8>)
    requires
        from <= to <= s.len(),
    ensures
        r@ == s@.subrange(from as int, to as int),
{
    let mut r: Vec<u8> = Vec::new();
    let mut i: usize = from;
    while i < to
        invariant
            from <= i <= to <= s.len(),
            r@ == s@.subrange(from as int, i as int),
        decreases to - i,
    {
        r.push(s[i]);
        assert(s@.subrange(from as int, i as int + 1) =~= s@.subrange(from as int, i as int).push(
            s@[i as int],
        ));
        i = i + 1;
    }
    r
}

/// Whether `a` and `b` hold the same bytes.
pub fn same_bytes(a: &[u8], b: &[u8]) -> (r: bool)
    ensures
        r == (a@ == b@),
{
    if a.len() != b.len() {
        return false;
    }
    let mut i: usize = 0;
    while i < a.len()
        invariant
            i <= a.len(),
            a.len() == b.len(),
            forall|j: int| 0 <= j < i ==> a@[j] == b@[j],
        decreases a.len() - i,
    {
        if a[i] != b[i] {
            return false;
        }
        i = i + 1;
    }
    assert(a@ =~= b@);
    true
}

/// The pieces into which `s` falls at each `sep`.
pub fn split_at_each(s: &[u8], sep: u8) -> (pieces: Vec<Vec<u8>>)
    ensures
        views(pieces@) == split(s@, sep),
{
    let mut done: Vec<Vec<u8>> = Vec::new();
    let mut current: Vec<u8> = Vec::new();
    let mut i: usize = 0;
    assert(s@.take(0) =~= Seq::<u8>::empty());
    while i < s.len()
        invariant
            i <= s.len(),
            done@.len() + 1 == split(s@.take(i as int), sep).len(),
            current@ == split(s@.take(i as int), sep).last(),
            forall|k: int|
                0 <= k < done@.len() ==> (#[trigger] done@[k])@ == split(s@.take(i as int), sep)[k],
        decreases s.len() - i,
    {
        let b: u8 = s[i];
        proof {
            let now = s@.take(i as int + 1);
            assert(now.drop_last() =~= s@.take(i as int));
            assert(now.last() == b);
        }
        if b == sep {
            done.push(current);
            current = Vec::new();
        } else {
            current.push(b);
        }
        i = i + 1;
    }
    assert(s@.take(i as int) =~= s@);
    done.push(current);
    assert(views(done@) =~= split(s@, sep));
    done
}

} // verus!
