//! Byte-level text utilities: field trimming, separator splitting,
//! whitespace tokenising and decimal parsing, each with a spec-level
//! model proved against the executable code.

use vstd::prelude::*;

verus! {

/// ASCII codes the protocol and the row format single out.
pub const SPACE: u8 = 32;

pub const QUOTE: u8 = 34;

pub const TAB: u8 = 9;

pub const CR: u8 = 13;

pub const LF: u8 = 10;

pub const COMMA: u8 = 44;

pub const DOT: u8 = 46;

pub const PLUS: u8 = 43;

pub const DIGIT_ZERO: u8 = 48;

pub const DIGIT_NINE: u8 = 57;

/// Bytes stripped from both ends of a field: space and double quote.
pub open spec fn is_trim_byte(b: u8) -> bool {
    b == SPACE || b == QUOTE
}

/// A field with every surrounding space and double quote removed, front
/// first, then back.
pub open spec fn trim_spec(s: Seq<u8>) -> Seq<u8>
    decreases s.len(),
{
    if s.len() > 0 && is_trim_byte(s[0]) {
        trim_spec(s.skip(1))
    } else if s.len() > 0 && is_trim_byte(s.last()) {
        trim_spec(s.take(s.len() - 1))
    } else {
        s
    }
}

/// Characterises `trim_spec` by the first and last untrimmed positions:
/// with trim bytes exactly outside `[lo, hi)` and none at its edges, the
/// trimmed field is the subrange `[lo, hi)`.
proof fn lemma_trim_range(s: Seq<u8>, lo: int, hi: int)
    requires
        0 <= lo <= hi <= s.len(),
        forall|k: int| 0 <= k < lo ==> is_trim_byte(s[k]),
        forall|k: int| hi <= k < s.len() ==> is_trim_byte(s[k]),
        lo < hi ==> !is_trim_byte(s[lo]) && !is_trim_byte(s[hi - 1]),
    ensures
        trim_spec(s) == s.subrange(lo, hi),
    decreases s.len(),
{
    if s.len() == 0 {
        assert(trim_spec(s) =~= s.subrange(lo, hi));
    } else if is_trim_byte(s[0]) {
        assert(lo > 0 || lo == hi) by {
            if lo == 0 && lo < hi {
                assert(!is_trim_byte(s[lo]));
            }
        }
        if lo > 0 {
            lemma_trim_range(s.skip(1), lo - 1, hi - 1);
            assert(s.skip(1).subrange(lo - 1, hi - 1) =~= s.subrange(lo, hi));
        } else {
            // lo == hi == 0: everything is trimmed away
            lemma_trim_range(s.skip(1), 0, 0);
            assert(s.skip(1).subrange(0, 0) =~= s.subrange(lo, hi));
        }
    } else if is_trim_byte(s.last()) {
        assert(hi < s.len()) by {
            if hi == s.len() {
                if lo < hi {
                    assert(!is_trim_byte(s[hi - 1]));
                } else {
                    // lo == hi == s.len(): s[0] would be a trim byte
                    assert(is_trim_byte(s[0]));
                }
            }
        }
        let t = s.take(s.len() - 1);
        assert(forall|k: int| 0 <= k < lo ==> is_trim_byte(t[k]));
        assert(forall|k: int| hi <= k < t.len() ==> is_trim_byte(t[k]));
        lemma_trim_range(t, lo, hi);
        assert(t.subrange(lo, hi) =~= s.subrange(lo, hi));
    } else {
        assert(lo == 0) by {
            if lo > 0 {
                assert(is_trim_byte(s[0]));
            }
        }
        assert(hi == s.len()) by {
            if hi < s.len() {
                assert(is_trim_byte(s[s.len() - 1]));
            }
        }
        assert(trim_spec(s) =~= s.subrange(lo, hi));
    }
}

/// Removes every leading and trailing space and double quote, as
/// `trim_spec` describes.
pub fn trim(s: &Vec<u8>) -> (r: Vec<u8>)
    ensures
        r@ == trim_spec(s@),
{
    let mut lo: usize = 0;
    while lo < s.len() && (s[lo] == SPACE || s[lo] == QUOTE)
        invariant
            lo <= s@.len(),
            forall|k: int| 0 <= k < lo ==> is_trim_byte(s@[k]),
        decreases s@.len() - lo,
    {
        lo = lo + 1;
    }
    let mut hi: usize = s.len();
    while hi > lo && (s[hi - 1] == SPACE || s[hi - 1] == QUOTE)
        invariant
            lo <= hi <= s@.len(),
            forall|k: int| hi <= k < s@.len() ==> is_trim_byte(s@[k]),
        decreases hi - lo,
    {
        hi = hi - 1;
    }
    let mut r: Vec<u8> = Vec::new();
    let mut i: usize = lo;
    while i < hi
        invariant
            lo <= i <= hi <= s@.len(),
            r@ == s@.subrange(lo as int, i as int),
        decreases hi - i,
    {
        let ghost prev = r@;
        r.push(s[i]);
        proof {
            assert(prev.push(s@[i as int]) =~= s@.subrange(lo as int, i + 1));
        }
        i = i + 1;
    }
    proof {
        lemma_trim_range(s@, lo as int, hi as int);
    }
    r
}

/// Index of the first occurrence of `sep` in `s`, or `s.len()` when it
/// does not occur.
pub open spec fn idx_of(s: Seq<u8>, sep: u8) -> int
    decreases s.len(),
{
    if s.len() == 0 {
        0
    } else if s[0] == sep {
        0
    } else {
        1 + idx_of(s.skip(1), sep)
    }
}

/// `idx_of` points at the first separator: it is in bounds, the bytes
/// before it differ from `sep`, and the byte there (if any) is `sep`.
pub proof fn lemma_idx_of_props(s: Seq<u8>, sep: u8)
    ensures
        0 <= idx_of(s, sep) <= s.len(),
        forall|k: int| 0 <= k < idx_of(s, sep) ==> s[k] != sep,
        idx_of(s, sep) < s.len() ==> s[idx_of(s, sep)] == sep,
    decreases s.len(),
{
    if s.len() == 0 {
    } else if s[0] == sep {
    } else {
        lemma_idx_of_props(s.skip(1), sep);
        assert(forall|k: int| 0 <= k < idx_of(s, sep) ==> s[k] != sep) by {
            assert(forall|k: int| 1 <= k < idx_of(s, sep) ==> s[k] == s.skip(1)[k - 1]);
        }
    }
}

/// `idx_of` computed from a witness: if nothing before `i` is the
/// separator and `i` is either the end or a separator, then `i` is it.
proof fn lemma_idx_of_at(s: Seq<u8>, sep: u8, i: int)
    requires
        0 <= i <= s.len(),
        forall|k: int| 0 <= k < i ==> s[k] != sep,
        i < s.len() ==> s[i] == sep,
    ensures
        idx_of(s, sep) == i,
    decreases s.len(),
{
    if s.len() == 0 {
    } else if i == 0 {
    } else {
        assert(s[0] != sep);
        assert(forall|k: int| 0 <= k < i - 1 ==> s.skip(1)[k] == s[k + 1]);
        lemma_idx_of_at(s.skip(1), sep, i - 1);
    }
}

/// The fields of `s` cut at every occurrence of `sep`, in order; a
/// string without the separator is one field, so there is always at
/// least one, and an empty input gives one empty field.
pub open spec fn split_spec(s: Seq<u8>, sep: u8) -> Seq<Seq<u8>>
    decreases s.len(),
    via split_spec_decreases
{
    let i = idx_of(s, sep);
    if i == s.len() {
        seq![s]
    } else {
        seq![s.take(i)] + split_spec(s.skip(i + 1), sep)
    }
}

#[via_fn]
proof fn split_spec_decreases(s: Seq<u8>, sep: u8) {
    lemma_idx_of_props(s, sep);
}

/// Cuts `s` at every occurrence of `sep`, as `split_spec` describes.
pub fn split(s: &Vec<u8>, sep: u8) -> (r: Vec<Vec<u8>>)
    ensures
        r.deep_view() == split_spec(s@, sep),
{
    let mut r: Vec<Vec<u8>> = Vec::new();
    let mut field: Vec<u8> = Vec::new();
    let ghost mut start: int = 0;
    let mut i: usize = 0;
    proof {
        assert(s@.skip(0) =~= s@);
        assert(field@ =~= s@.subrange(0, 0));
        assert(r.deep_view() =~= Seq::<Seq<u8>>::empty());
        assert(Seq::<Seq<u8>>::empty() + split_spec(s@, sep) =~= split_spec(s@, sep));
    }
    while i < s.len()
        invariant
            0 <= start <= i <= s@.len(),
            field@ == s@.subrange(start, i as int),
            forall|k: int| start <= k < i ==> s@[k] != sep,
            split_spec(s@, sep) == r.deep_view() + split_spec(s@.skip(start), sep),
        decreases s@.len() - i,
    {
        if s[i] == sep {
            proof {
                let rest = s@.skip(start);
                assert(forall|k: int| 0 <= k < i - start ==> rest[k] == s@[k + start]);
                lemma_idx_of_at(rest, sep, i - start);
                assert(rest.take(i - start) =~= s@.subrange(start, i as int));
                assert(rest.skip(i - start + 1) =~= s@.skip(i + 1));
                assert(split_spec(rest, sep) == seq![field@] + split_spec(s@.skip(i + 1), sep));
            }
            let ghost old_r = r.deep_view();
            let ghost f = field@;
            r.push(field);
            proof {
                assert(r.deep_view() =~~= old_r.push(f));
                assert(old_r.push(f) =~= old_r + seq![f]);
                assert((old_r + seq![f]) + split_spec(s@.skip(i + 1), sep) =~= old_r + (seq![f]
                    + split_spec(s@.skip(i + 1), sep)));
            }
            field = Vec::new();
            i = i + 1;
            proof {
                start = i as int;
                assert(field@ =~= s@.subrange(start, i as int));
            }
        } else {
            let ghost f = field@;
            field.push(s[i]);
            proof {
                assert(f.push(s@[i as int]) =~= s@.subrange(start, i + 1));
            }
            i = i + 1;
        }
    }
    proof {
        let rest = s@.skip(start);
        assert(forall|k: int| 0 <= k < rest.len() ==> rest[k] == s@[k + start]);
        lemma_idx_of_at(rest, sep, rest.len() as int);
        assert(rest =~= s@.subrange(start, s@.len() as int));
        assert(split_spec(rest, sep) == seq![field@]);
    }
    let ghost old_r = r.deep_view();
    let ghost f = field@;
    r.push(field);
    proof {
        assert(r.deep_view() =~~= old_r.push(f));
        assert(old_r.push(f) =~= old_r + seq![f]);
    }
    r
}

/// A decimal digit.
pub open spec fn is_digit(b: u8) -> bool {
    DIGIT_ZERO <= b && b <= DIGIT_NINE
}

pub open spec fn all_digits(s: Seq<u8>) -> bool {
    forall|k: int| 0 <= k < s.len() ==> is_digit(s[k])
}

/// Value of a run of decimal digits, most significant first.
pub open spec fn dec_val(s: Seq<u8>) -> int
    decreases s.len(),
{
    if s.len() == 0 {
        0
    } else {
        dec_val(s.drop_last()) * 10 + (s.last() - DIGIT_ZERO)
    }
}

/// A run of digits has a nonnegative value.
pub proof fn lemma_dec_val_nonneg(s: Seq<u8>)
    requires
        all_digits(s),
    ensures
        dec_val(s) >= 0,
    decreases s.len(),
{
    if s.len() > 0 {
        assert(all_digits(s.drop_last())) by {
            assert(forall|k: int| 0 <= k < s.len() - 1 ==> s.drop_last()[k] == s[k]);
        }
        lemma_dec_val_nonneg(s.drop_last());
        assert(is_digit(s.last()));
    }
}

/// What parsing an unsigned 32-bit decimal accepts: an optional leading
/// plus sign, then at least one digit, with the value within `u32`.
pub open spec fn parse_u32_spec(s: Seq<u8>) -> Option<u32> {
    let t = if s.len() > 0 && s[0] == PLUS {
        s.skip(1)
    } else {
        s
    };
    if t.len() > 0 && all_digits(t) && dec_val(t) <= u32::MAX {
        Option::Some(dec_val(t) as u32)
    } else {
        Option::None
    }
}

/// Reads `s` as an unsigned 32-bit decimal, as `parse_u32_spec`
/// describes; anything else - empty, a stray byte, too large - is
/// `None`.
pub fn parse_u32(s: &Vec<u8>) -> (r: Option<u32>)
    ensures
        r == parse_u32_spec(s@),
{
    let mut i: usize = 0;
    if s.len() > 0 && s[0] == PLUS {
        i = 1;
    }
    let ghost base: int = i as int;
    let ghost t = s@.skip(base);
    proof {
        assert(forall|k: int| 0 <= k < t.len() ==> t[k] == s@[k + base]);
        if base == 0 {
            assert(t =~= s@);
        }
    }
    if i >= s.len() {
        return Option::None;
    }
    let mut acc: u64 = 0;
    let mut over: bool = false;
    while i < s.len()
        invariant
            0 <= base <= i <= s@.len(),
            base <= 1,
            t == s@.skip(base),
            t.len() == s@.len() - base,
            forall|k: int| 0 <= k < t.len() ==> t[k] == s@[k + base],
            parse_u32_spec(s@) == parse_u32_spec_tail(t),
            forall|k: int| base <= k < i ==> is_digit(s@[k]),
            over <==> dec_val(s@.subrange(base, i as int)) > u32::MAX,
            !over ==> acc == dec_val(s@.subrange(base, i as int)) && acc <= u32::MAX,
        decreases s@.len() - i,
    {
        let b = s[i];
        if b < DIGIT_ZERO || b > DIGIT_NINE {
            proof {
                assert(t[i - base] == s@[i as int]);
                assert(!all_digits(t));
            }
            return Option::None;
        }
        proof {
            let p = s@.subrange(base, i as int);
            let q = s@.subrange(base, i + 1);
            assert(q =~= p.push(s@[i as int]));
            assert(q.drop_last() =~= p);
            assert(dec_val(q) == dec_val(p) * 10 + (s@[i as int] - DIGIT_ZERO));
        }
        if !over {
            let next: u64 = acc * 10 + ((b - DIGIT_ZERO) as u64);
            if next > (u32::MAX as u64) {
                over = true;
            } else {
                acc = next;
            }
        }
        i = i + 1;
    }
    proof {
        assert(s@.subrange(base, i as int) =~= t);
    }
    if over {
        Option::None
    } else {
        Option::Some(acc as u32)
    }
}

/// The digits of `parse_u32_spec` after any sign byte is gone: used to
/// tie the scanning loop to the specification.
spec fn parse_u32_spec_tail(t: Seq<u8>) -> Option<u32> {
    if t.len() > 0 && all_digits(t) && dec_val(t) <= u32::MAX {
        Option::Some(dec_val(t) as u32)
    } else {
        Option::None
    }
}

/// ASCII whitespace recognised between command tokens.
pub open spec fn is_space(b: u8) -> bool {
    b == SPACE || b == TAB || b == CR || b == LF
}

/// Index of the first whitespace byte, or `s.len()` when there is none.
pub open spec fn first_space(s: Seq<u8>) -> int
    decreases s.len(),
{
    if s.len() == 0 {
        0
    } else if is_space(s[0]) {
        0
    } else {
        1 + first_space(s.skip(1))
    }
}

/// `first_space` points at the first whitespace byte, as `idx_of` does
/// for a separator.
pub proof fn lemma_first_space_props(s: Seq<u8>)
    ensures
        0 <= first_space(s) <= s.len(),
        forall|k: int| 0 <= k < first_space(s) ==> !is_space(s[k]),
        first_space(s) < s.len() ==> is_space(s[first_space(s)]),
    decreases s.len(),
{
    if s.len() == 0 {
    } else if is_space(s[0]) {
    } else {
        lemma_first_space_props(s.skip(1));
        assert(forall|k: int| 0 <= k < first_space(s) ==> !is_space(s[k])) by {
            assert(forall|k: int| 1 <= k < first_space(s) ==> s[k] == s.skip(1)[k - 1]);
        }
    }
}

/// `first_space` computed from a witness position.
proof fn lemma_first_space_at(s: Seq<u8>, i: int)
    requires
        0 <= i <= s.len(),
        forall|k: int| 0 <= k < i ==> !is_space(s[k]),
        i < s.len() ==> is_space(s[i]),
    ensures
        first_space(s) == i,
    decreases s.len(),
{
    if s.len() == 0 {
    } else if i == 0 {
    } else {
        assert(!is_space(s[0]));
        assert(forall|k: int| 0 <= k < i - 1 ==> s.skip(1)[k] == s[k + 1]);
        lemma_first_space_at(s.skip(1), i - 1);
    }
}

/// The whitespace-separated words of `s`, in order, with empty runs
/// dropped - the splitting `split_whitespace` performs, over ASCII.
pub open spec fn tokens_spec(s: Seq<u8>) -> Seq<Seq<u8>>
    decreases s.len(),
    via tokens_spec_decreases
{
    if s.len() == 0 {
        Seq::empty()
    } else if is_space(s[0]) {
        tokens_spec(s.skip(1))
    } else {
        let j = first_space(s);
        seq![s.take(j)] + tokens_spec(s.skip(j))
    }
}

#[via_fn]
proof fn tokens_spec_decreases(s: Seq<u8>) {
    lemma_first_space_props(s);
}

/// Splits `s` into its whitespace-separated words, as `tokens_spec`
/// describes.
pub fn tokenize(s: &Vec<u8>) -> (r: Vec<Vec<u8>>)
    ensures
        r.deep_view() == tokens_spec(s@),
{
    let mut r: Vec<Vec<u8>> = Vec::new();
    let mut word: Vec<u8> = Vec::new();
    let ghost mut start: int = 0;
    let mut i: usize = 0;
    proof {
        assert(s@.skip(0) =~= s@);
        assert(r.deep_view() =~= Seq::<Seq<u8>>::empty());
        assert(Seq::<Seq<u8>>::empty() + tokens_spec(s@) =~= tokens_spec(s@));
    }
    while i < s.len()
        invariant
            0 <= start <= i <= s@.len(),
            word@.len() == 0 ==> tokens_spec(s@) == r.deep_view() + tokens_spec(s@.skip(i as int)),
            word@.len() > 0 ==> word@ == s@.subrange(start, i as int) && (forall|k: int|
                start <= k < i ==> !is_space(s@[k])) && tokens_spec(s@) == r.deep_view()
                + tokens_spec(s@.skip(start)),
        decreases s@.len() - i,
    {
        let b = s[i];
        if b == SPACE || b == TAB || b == CR || b == LF {
            if word.len() > 0 {
                proof {
                    let rest = s@.skip(start);
                    assert(forall|k: int| 0 <= k < rest.len() ==> rest[k] == s@[k + start]);
                    lemma_first_space_at(rest, i - start);
                    assert(rest.take(i - start) =~= s@.subrange(start, i as int));
                    assert(rest.skip(i - start) =~= s@.skip(i as int));
                    assert(tokens_spec(rest) == seq![word@] + tokens_spec(s@.skip(i as int)));
                }
                let ghost old_r = r.deep_view();
                let ghost w = word@;
                r.push(word);
                proof {
                    assert(r.deep_view() =~~= old_r.push(w));
                    assert(old_r.push(w) =~= old_r + seq![w]);
                    assert((old_r + seq![w]) + tokens_spec(s@.skip(i as int)) =~= old_r + (
                    seq![w] + tokens_spec(s@.skip(i as int))));
                }
                word = Vec::new();
            }
            proof {
                let rest = s@.skip(i as int);
                assert(rest[0] == s@[i as int]);
                assert(rest.skip(1) =~= s@.skip(i + 1));
                assert(tokens_spec(rest) == tokens_spec(s@.skip(i + 1)));
            }
            i = i + 1;
        } else {
            if word.len() == 0 {
                proof {
                    start = i as int;
                }
            }
            let ghost w = word@;
            word.push(b);
            proof {
                assert(w.push(s@[i as int]) =~= s@.subrange(start, i + 1));
            }
            i = i + 1;
        }
    }
    if word.len() > 0 {
        proof {
            let rest = s@.skip(start);
            assert(forall|k: int| 0 <= k < rest.len() ==> rest[k] == s@[k + start]);
            lemma_first_space_at(rest, rest.len() as int);
            assert(rest.take(rest.len() as int) =~= rest);
            assert(rest.skip(rest.len() as int) =~= Seq::<u8>::empty());
            assert(rest =~= s@.subrange(start, s@.len() as int));
            assert(tokens_spec(Seq::<u8>::empty()) =~= Seq::<Seq<u8>>::empty());
            assert(seq![word@] + tokens_spec(rest.skip(rest.len() as int)) =~= seq![word@]);
            assert(tokens_spec(rest) == seq![word@]);
        }
        let ghost old_r = r.deep_view();
        let ghost w = word@;
        r.push(word);
        proof {
            assert(r.deep_view() =~~= old_r.push(w));
            assert(old_r.push(w) =~= old_r + seq![w]);
        }
    } else {
        proof {
            assert(s@.skip(s@.len() as int) =~= Seq::<u8>::empty());
            assert(tokens_spec(s@.skip(s@.len() as int)) =~= Seq::<Seq<u8>>::empty());
            assert(r.deep_view() + Seq::<Seq<u8>>::empty() =~= r.deep_view());
        }
    }
    r
}

/// A fresh vector with the same bytes.
pub fn copy_bytes(v: &Vec<u8>) -> (r: Vec<u8>)
    ensures
        r@ == v@,
{
    let mut r: Vec<u8> = Vec::new();
    let mut i: usize = 0;
    while i < v.len()
        invariant
            i <= v@.len(),
            r@ == v@.subrange(0, i as int),
        decreases v@.len() - i,
    {
        let ghost prev = r@;
        r.push(v[i]);
        proof {
            assert(prev.push(v@[i as int]) =~= v@.subrange(0, i + 1));
        }
        i = i + 1;
    }
    assert(v@.subrange(0, v@.len() as int) =~= v@);
    r
}

} // verus!
