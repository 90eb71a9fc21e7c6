//! Decoder for the decompressed frame-stream text: records separated by
//! `,`, each split on `|` into exactly four fields `[delta, x, y, keys]`.
//! A record whose delta field is the sentinel literal `-12345` carries a
//! pseudo-random seed in its fourth field instead of an input sample.

use crate::error::DecodeError;
use vstd::prelude::*;

verus! {

/// Splits a character sequence on a separator. An empty sequence
/// yields one empty piece, as `str::split` does.
pub open spec fn split_on(s: Seq<char>, sep: char) -> Seq<Seq<char>>
    decreases s.len(),
{
    if s.len() == 0 {
        seq![Seq::<char>::empty()]
    } else if s[0] == sep {
        seq![Seq::<char>::empty()] + split_on(s.skip(1), sep)
    } else {
        let rest = split_on(s.skip(1), sep);
        seq![seq![s[0]] + rest[0]] + rest.skip(1)
    }
}

/// A split always has at least one piece.
pub proof fn lemma_split_on_len(s: Seq<char>, sep: char)
    ensures
        split_on(s, sep).len() >= 1,
    decreases s.len(),
{
    if s.len() == 0 {
    } else if s[0] == sep {
    } else {
        lemma_split_on_len(s.skip(1), sep);
    }
}

/// When the first `k` characters hold no separator and position `k`
/// (if any) does, the split is the head piece followed by the split of
/// what comes after the separator.
pub proof fn lemma_split_on_head(s: Seq<char>, sep: char, k: int)
    requires
        0 <= k <= s.len(),
        forall|i: int| 0 <= i < k ==> s[i] != sep,
        k < s.len() ==> s[k] == sep,
    ensures
        k == s.len() ==> split_on(s, sep) == seq![s],
        k < s.len() ==> split_on(s, sep) == seq![s.take(k)] + split_on(s.skip(k + 1), sep),
    decreases k,
{
    lemma_split_on_len(s, sep);
    if k == 0 {
        if s.len() == 0 {
            assert(Seq::<char>::empty() =~= s);
            assert(split_on(s, sep) == seq![s]);
        } else {
            assert(s.take(0) =~= Seq::<char>::empty());
        }
    } else {
        let t = s.skip(1);
        lemma_split_on_head(t, sep, k - 1);
        lemma_split_on_len(t, sep);
        let rest = split_on(t, sep);
        if k == s.len() {
            assert(rest == seq![t]);
            assert(seq![s[0]] + rest[0] =~= s);
            assert(split_on(s, sep) =~= seq![s]);
        } else {
            assert(rest == seq![t.take(k - 1)] + split_on(t.skip(k), sep));
            assert(rest[0] == t.take(k - 1));
            assert(seq![s[0]] + t.take(k - 1) =~= s.take(k));
            assert(rest.skip(1) =~= split_on(t.skip(k), sep));
            assert(t.skip(k) =~= s.skip(k + 1));
            assert(split_on(s, sep) =~= seq![s.take(k)] + split_on(s.skip(k + 1), sep));
        }
    }
}

/// Splits a string on a separator character, as `str::split` does.
pub fn split_string(s: &str, sep: char) -> (r: Vec<String>)
    ensures
        r@.map_values(|t: String| t@) == split_on(s@, sep),
{
    let n = s.unicode_len();
    let mut out: Vec<String> = Vec::new();
    let mut start: usize = 0;
    proof {
        assert(s@.skip(0) =~= s@);
        assert(out@.map_values(|t: String| t@) + split_on(s@.skip(0), sep) =~= split_on(s@, sep));
    }
    loop
        invariant
            start <= n,
            n == s@.len(),
            split_on(s@, sep) == out@.map_values(|t: String| t@) + split_on(
                s@.skip(start as int),
                sep,
            ),
        decreases n - start,
    {
        let mut k: usize = start;
        while k < n && s.get_char(k) != sep
            invariant
                start <= k <= n,
                n == s@.len(),
                forall|i: int| start <= i < k ==> s@[i] != sep,
            decreases n - k,
        {
            k = k + 1;
        }
        let tok = s.substring_char(start, k).to_owned();
        let ghost suffix = s@.skip(start as int);
        proof {
            lemma_split_on_head(suffix, sep, k - start);
            assert(suffix.take(k - start) =~= s@.subrange(start as int, k as int));
        }
        out.push(tok);
        if k == n {
            proof {
                assert(suffix =~= s@.subrange(start as int, k as int));
                assert(split_on(suffix, sep) == seq![tok@]);
                assert(out@.map_values(|t: String| t@) =~= out@.drop_last().map_values(
                    |t: String| t@,
                ) + seq![tok@]);
                assert(split_on(s@, sep) =~= out@.map_values(|t: String| t@));
            }
            return out;
        }
        proof {
            assert(suffix.skip(k - start + 1) =~= s@.skip(k as int + 1));
            assert(split_on(suffix, sep) == seq![tok@] + split_on(s@.skip(k as int + 1), sep));
            assert(out@.map_values(|t: String| t@) =~= out@.drop_last().map_values(|t: String| t@)
                + seq![tok@]);
            assert(out@.map_values(|t: String| t@) + split_on(s@.skip(k as int + 1), sep)
                =~= out@.drop_last().map_values(|t: String| t@) + split_on(suffix, sep));
        }
        start = k + 1;
    }
}

/// Whether `c` is an ASCII decimal digit.
pub open spec fn is_digit(c: char) -> bool {
    48 <= c as int <= 57
}

/// The decimal value of a digit sequence, most significant first.
pub open spec fn dec_val(s: Seq<char>) -> nat
    decreases s.len(),
{
    if s.len() == 0 {
        0
    } else {
        10 * dec_val(s.drop_last()) + (s.last() as int - 48) as nat
    }
}

/// A non-empty, all-digit sequence.
pub open spec fn digits_ok(s: Seq<char>) -> bool {
    s.len() > 0 && forall|i: int| 0 <= i < s.len() ==> is_digit(#[trigger] s[i])
}

/// The sequence with one leading `+` or `-` removed.
pub open spec fn sign_stripped(s: Seq<char>) -> Seq<char> {
    if s.len() > 0 && (s[0] == '-' || s[0] == '+') {
        s.skip(1)
    } else {
        s
    }
}

/// Whether the sequence carries a leading minus sign.
pub open spec fn is_neg(s: Seq<char>) -> bool {
    s.len() > 0 && s[0] == '-'
}

/// The strings `i32::from_str` accepts: an optional sign, then digits,
/// with the value in range.
pub open spec fn is_i32_str(s: Seq<char>) -> bool {
    &&& digits_ok(sign_stripped(s))
    &&& if is_neg(s) {
        dec_val(sign_stripped(s)) <= 0x80000000
    } else {
        dec_val(sign_stripped(s)) <= 0x7fffffff
    }
}

/// The signed value such a string denotes.
pub open spec fn i32_str_val(s: Seq<char>) -> int {
    if is_neg(s) {
        -(dec_val(sign_stripped(s)) as int)
    } else {
        dec_val(sign_stripped(s)) as int
    }
}

/// A digit prefix never exceeds the value of the whole sequence.
proof fn lemma_dec_val_prefix(s: Seq<char>, i: int)
    requires
        0 <= i <= s.len(),
    ensures
        dec_val(s.take(i)) <= dec_val(s),
    decreases s.len() - i,
{
    if i == s.len() {
        assert(s.take(i) =~= s);
    } else {
        lemma_dec_val_prefix(s, i + 1);
        assert(s.take(i + 1).drop_last() =~= s.take(i));
        assert(dec_val(s.take(i + 1)) == 10 * dec_val(s.take(i)) + (s.take(i + 1).last() as int
            - 48) as nat);
    }
}

/// Parses a decimal signed 32-bit integer exactly as `i32::from_str`
/// does: an optional `+` or `-`, then one or more digits, rejected
/// when empty, malformed, or out of range.
pub fn parse_i32(s: &str) -> (r: Result<i32, DecodeError>)
    ensures
        is_i32_str(s@) ==> r == Ok::<i32, DecodeError>(i32_str_val(s@) as i32),
        !is_i32_str(s@) ==> r == Err::<i32, DecodeError>(DecodeError::FrameParse),
{
    let n = s.unicode_len();
    if n == 0 {
        return Err(DecodeError::FrameParse);
    }
    let c0 = s.get_char(0);
    let neg = c0 == '-';
    let start: usize = if c0 == '-' || c0 == '+' {
        1
    } else {
        0
    };
    if start >= n {
        return Err(DecodeError::FrameParse);
    }
    let ghost body = sign_stripped(s@);
    proof {
        assert(body.len() == n - start);
        assert(forall|m: int| 0 <= m < body.len() ==> body[m] == s@[start + m]);
    }
    let mut acc: u64 = 0;
    let mut i: usize = start;
    while i < n
        invariant
            start <= i <= n,
            n == s@.len(),
            start < n,
            body == sign_stripped(s@),
            body.len() == n - start,
            forall|m: int| 0 <= m < body.len() ==> body[m] == s@[start + m],
            forall|m: int| 0 <= m < i - start ==> is_digit(#[trigger] body[m]),
            acc as nat == dec_val(body.take(i - start)),
            acc <= 0x80000000,
        decreases n - i,
    {
        let c = s.get_char(i);
        let d = c as u32;
        if d < 48 || d > 57 {
            assert(!is_digit(body[i - start]));
            return Err(DecodeError::FrameParse);
        }
        acc = acc * 10 + (d - 48) as u64;
        proof {
            assert(body.take(i - start + 1).drop_last() =~= body.take(i - start));
            assert(body.take(i - start + 1).last() == body[i - start]);
            assert(acc as nat == dec_val(body.take(i - start + 1)));
        }
        if acc > 0x80000000 {
            proof {
                lemma_dec_val_prefix(body, i - start + 1);
            }
            return Err(DecodeError::FrameParse);
        }
        i = i + 1;
    }
    proof {
        assert(body.take(n - start) =~= body);
        assert(digits_ok(body));
    }
    if neg {
        Ok((-(acc as i64)) as i32)
    } else {
        if acc > 0x7fffffff {
            return Err(DecodeError::FrameParse);
        }
        Ok(acc as i32)
    }
}

/// `c` matches the lowercase letter `l`, ignoring ASCII case.
pub open spec fn lower_eq(c: char, l: char) -> bool {
    c == l || c as int == l as int - 32
}

/// The two sequences match ignoring ASCII case; `t` is lowercase.
pub open spec fn matches_ci(s: Seq<char>, t: Seq<char>) -> bool {
    s.len() == t.len() && forall|i: int| 0 <= i < s.len() ==> lower_eq(#[trigger] s[i], t[i])
}

/// `inf` or `infinity`, in any case.
pub open spec fn is_inf_str(s: Seq<char>) -> bool {
    matches_ci(s, seq!['i', 'n', 'f']) || matches_ci(
        s,
        seq!['i', 'n', 'f', 'i', 'n', 'i', 't', 'y'],
    )
}

/// `nan`, in any case.
pub open spec fn is_nan_str(s: Seq<char>) -> bool {
    matches_ci(s, seq!['n', 'a', 'n'])
}

/// An exponent marker.
pub open spec fn is_exp_char(c: char) -> bool {
    c == 'e' || c == 'E'
}

/// A valid mantissa: digits with at most one decimal point anywhere,
/// and at least one digit.
pub open spec fn mantissa_ok(m: Seq<char>) -> bool {
    &&& forall|i: int| 0 <= i < m.len() ==> (is_digit(#[trigger] m[i]) || m[i] == '.')
    &&& forall|i: int, j: int|
        0 <= i < m.len() && 0 <= j < m.len() && #[trigger] m[i] == '.' && #[trigger] m[j] == '.'
            ==> i == j
    &&& exists|i: int| 0 <= i < m.len() && is_digit(#[trigger] m[i])
}

/// Splitting the (sign-stripped) literal at position `k`, the first
/// exponent marker (or the end), gives a valid mantissa and, when an
/// exponent follows, a signed digit run.
pub open spec fn exp_split_ok(t: Seq<char>, k: int) -> bool {
    &&& 0 <= k <= t.len()
    &&& (k == t.len() || is_exp_char(t[k]))
    &&& forall|i: int| 0 <= i < k ==> !is_exp_char(#[trigger] t[i])
    &&& mantissa_ok(t.take(k))
    &&& (k < t.len() ==> digits_ok(sign_stripped(t.skip(k + 1))))
}

/// A finite-number literal: mantissa, optional exponent.
pub open spec fn number_ok(t: Seq<char>) -> bool {
    exists|k: int| #[trigger] exp_split_ok(t, k)
}

/// The strings `f32::from_str` (and `f64::from_str`) accept: an
/// optional sign, then `inf`, `infinity`, `nan` (any case) or a
/// decimal number with optional fraction and exponent.
pub open spec fn is_float_str(s: Seq<char>) -> bool {
    let t = sign_stripped(s);
    is_inf_str(t) || is_nan_str(t) || number_ok(t)
}

/// The exponent-marker split position is unique: the number predicate
/// holds exactly when the split at the first marker works out.
proof fn lemma_exp_split_at(t: Seq<char>, k0: int)
    requires
        0 <= k0 <= t.len(),
        forall|i: int| 0 <= i < k0 ==> !is_exp_char(#[trigger] t[i]),
        k0 < t.len() ==> is_exp_char(t[k0]),
    ensures
        number_ok(t) == exp_split_ok(t, k0),
{
    if number_ok(t) {
        let k = choose|k: int| exp_split_ok(t, k);
        if k < k0 {
            assert(is_exp_char(t[k]));
            assert(false);
        }
        if k > k0 {
            assert(!is_exp_char(t[k0]));
            assert(false);
        }
        assert(exp_split_ok(t, k0));
    }
}

fn exp_char(c: char) -> (b: bool)
    ensures
        b == is_exp_char(c),
{
    c == 'e' || c == 'E'
}

fn lower_eq_exec(c: char, l: char) -> (b: bool)
    ensures
        b == lower_eq(c, l),
{
    c == l || (c as u32) + 32 == (l as u32)
}

fn matches_ci_str(s: &str, from: usize, pat: &str) -> (b: bool)
    requires
        from <= s@.len(),
    ensures
        b == matches_ci(s@.skip(from as int), pat@),
{
    let n = s.unicode_len();
    let m = pat.unicode_len();
    if n - from != m {
        return false;
    }
    let mut i: usize = 0;
    while i < m
        invariant
            i <= m,
            from <= n,
            n == s@.len(),
            m == pat@.len(),
            n - from == m,
            forall|j: int| 0 <= j < i ==> lower_eq(#[trigger] s@.skip(from as int)[j], pat@[j]),
        decreases m - i,
    {
        if !lower_eq_exec(s.get_char(from + i), pat.get_char(i)) {
            assert(!lower_eq(s@.skip(from as int)[i as int], pat@[i as int]));
            return false;
        }
        assert(s@.skip(from as int)[i as int] == s@[from + i]);
        i = i + 1;
    }
    true
}

/// Decides whether `f32::from_str` would accept `s`, by the documented
/// grammar: optional sign, then `inf`/`infinity`/`nan` in any case or
/// digits with at most one point and an optional signed exponent.
#[verifier::rlimit(100)]
#[verifier::loop_isolation(false)]
pub fn is_float_token(s: &str) -> (b: bool)
    ensures
        b == is_float_str(s@),
{
    let n = s.unicode_len();
    let start: usize = if n > 0 && (s.get_char(0) == '+' || s.get_char(0) == '-') {
        1
    } else {
        0
    };
    let ghost t = sign_stripped(s@);
    proof {
        assert(t =~= s@.skip(start as int));
        reveal_strlit("inf");
        reveal_strlit("infinity");
        reveal_strlit("nan");
        assert("inf"@ =~= seq!['i', 'n', 'f']);
        assert("infinity"@ =~= seq!['i', 'n', 'f', 'i', 'n', 'i', 't', 'y']);
        assert("nan"@ =~= seq!['n', 'a', 'n']);
    }
    if matches_ci_str(s, start, "inf") || matches_ci_str(s, start, "infinity") || matches_ci_str(
        s,
        start,
        "nan",
    ) {
        return true;
    }
    assert(!is_inf_str(t) && !is_nan_str(t));
    let mut k: usize = start;
    while k < n && !exp_char(s.get_char(k))
        invariant
            start <= k <= n,
            n == s@.len(),
            forall|i: int| start <= i < k ==> !is_exp_char(#[trigger] s@[i]),
        decreases n - k,
    {
        k = k + 1;
    }
    let ghost kk = k - start;
    proof {
        assert(forall|m: int| 0 <= m < t.len() ==> t[m] == s@[start + m]);
        assert forall|i: int| 0 <= i < kk implies !is_exp_char(#[trigger] t[i]) by {
            assert(t[i] == s@[start + i]);
        }
        if k < n {
            assert(t[kk] == s@[k as int]);
            assert(is_exp_char(t[kk]));
        }
        lemma_exp_split_at(t, kk);
    }
    let mut digitseen = false;
    let ghost mut dotpos: Option<int> = None;
    let mut dotseen = false;
    let mut i: usize = start;
    while i < k
        invariant
            start <= i <= k <= n,
            n == s@.len(),
            t == sign_stripped(s@),
            t.len() == n - start,
            kk == k - start,
            forall|m: int| 0 <= m < t.len() ==> t[m] == s@[start + m],
            forall|m: int| 0 <= m < i - start ==> (is_digit(#[trigger] t[m]) || t[m] == '.'),
            digitseen == exists|m: int| 0 <= m < i - start && is_digit(#[trigger] t[m]),
            match dotpos {
                None => !dotseen && forall|m: int| 0 <= m < i - start ==> #[trigger] t[m] != '.',
                Some(d) => dotseen && 0 <= d < i - start && t[d] == '.' && forall|m: int|
                    0 <= m < i - start && m != d ==> #[trigger] t[m] != '.',
            },
        decreases k - i,
    {
        let c = s.get_char(i);
        let d = c as u32;
        if d >= 48 && d <= 57 {
            digitseen = true;
            assert(is_digit(t[i - start]));
        } else if c == '.' {
            if dotseen {
                proof {
                    let dd = dotpos.unwrap();
                    assert(dd < kk && i - start < kk);
                    assert(t[i - start] == '.');
                    assert(t.take(kk)[dd] == '.' && t.take(kk)[i - start] == '.');
                    assert(!mantissa_ok(t.take(kk))) by {
                        if mantissa_ok(t.take(kk)) {
                            assert(dd == i - start);
                        }
                    }
                    assert(!exp_split_ok(t, kk));
                }
                return false;
            }
            dotseen = true;
            proof {
                dotpos = Some(i - start);
            }
        } else {
            proof {
                assert(t.take(kk)[i - start] == t[i - start]);
                assert(!(is_digit(t[i - start]) || t[i - start] == '.'));
                assert(!mantissa_ok(t.take(kk)));
            }
            return false;
        }
        i = i + 1;
    }
    if !digitseen {
        proof {
            assert forall|m: int| 0 <= m < kk implies !is_digit(t.take(kk)[m]) by {
                assert(t.take(kk)[m] == t[m]);
            }
            assert(!mantissa_ok(t.take(kk)));
        }
        return false;
    }
    proof {
        assert forall|m: int| 0 <= m < kk implies is_digit(#[trigger] t.take(kk)[m]) || t.take(
            kk,
        )[m] == '.' by {
            assert(t.take(kk)[m] == t[m]);
        }
        assert(mantissa_ok(t.take(kk))) by {
            let de = choose|m: int| 0 <= m < kk && is_digit(#[trigger] t[m]);
            assert(t.take(kk)[de] == t[de]);
            if dotseen {
                let d0 = dotpos.unwrap();
                assert forall|x: int, y: int|
                    0 <= x < kk && 0 <= y < kk && #[trigger] t.take(kk)[x] == '.' && #[trigger] t.take(
                        kk,
                    )[y] == '.' implies x == y by {
                    assert(t[x] == '.' && t[y] == '.');
                    assert(x == d0 && y == d0);
                }
            } else {
                assert forall|x: int, y: int|
                    0 <= x < kk && 0 <= y < kk && #[trigger] t.take(kk)[x] == '.' && #[trigger] t.take(
                        kk,
                    )[y] == '.' implies x == y by {
                    assert(t[x] == '.');
                }
            }
        }
    }
    if k < n {
        let ghost ex = sign_stripped(t.skip(kk + 1));
        let j0 = k + 1;
        let start2: usize = if j0 < n && (s.get_char(j0) == '+' || s.get_char(j0) == '-') {
            j0 + 1
        } else {
            j0
        };
        proof {
            assert(t.skip(kk + 1) =~= s@.skip(j0 as int));
            assert(ex =~= s@.skip(start2 as int));
        }
        if start2 >= n {
            proof {
                assert(ex.len() == 0);
                assert(!digits_ok(ex));
                assert(kk < t.len());
                assert(!exp_split_ok(t, kk));
            }
            return false;
        }
        let mut j: usize = start2;
        while j < n
            invariant
                start2 <= j <= n,
                n == s@.len(),
                ex == s@.skip(start2 as int),
                ex.len() == n - start2,
                forall|m: int| 0 <= m < ex.len() ==> ex[m] == s@[start2 + m],
                forall|m: int| 0 <= m < j - start2 ==> is_digit(#[trigger] ex[m]),
            decreases n - j,
        {
            let c = s.get_char(j);
            let d = c as u32;
            if d < 48 || d > 57 {
                proof {
                    assert(!is_digit(ex[j - start2]));
                    assert(!digits_ok(ex));
                    assert(!exp_split_ok(t, kk));
                }
                return false;
            }
            j = j + 1;
        }
        assert(digits_ok(ex));
    }
    assert(exp_split_ok(t, kk));
    true
}

/// One decoded player-input observation. The cursor coordinates are
/// kept as the raw decimal text of the frame stream (validated as
/// float literals); the time delta and key bitmask are parsed.
#[derive(Debug, Clone, PartialEq)]
pub struct ReplayFrame {
    /// Milliseconds since the previous sample; negative only in the
    /// sentinel record, which never becomes a `ReplayFrame`.
    pub delta: i32,
    /// Cursor X coordinate, as its decimal text.
    pub x: String,
    /// Cursor Y coordinate, as its decimal text.
    pub y: String,
    /// Keys/buttons bitmask.
    pub keys: i32,
}

/// The mathematical view of a frame.
#[verifier::ext_equal]
pub struct FrameView {
    pub delta: i32,
    pub x: Seq<char>,
    pub y: Seq<char>,
    pub keys: i32,
}

impl View for ReplayFrame {
    type V = FrameView;

    open spec fn view(&self) -> FrameView {
        FrameView { delta: self.delta, x: self.x@, y: self.y@, keys: self.keys }
    }
}

/// The sentinel delta literal that marks the seed-carrying record.
pub open spec fn sentinel_chars() -> Seq<char> {
    seq!['-', '1', '2', '3', '4', '5']
}

/// The `|`-separated fields of one record.
pub open spec fn rec_fields(r: Seq<char>) -> Seq<Seq<char>> {
    split_on(r, '|')
}

/// Whether the record's first field is exactly the sentinel literal.
pub open spec fn is_sentinel_rec(r: Seq<char>) -> bool {
    rec_fields(r)[0] == sentinel_chars()
}

/// A well-formed record: exactly four fields; a sentinel needs a
/// parsable seed in its fourth field, any other record needs
/// integer-float-float-integer fields.
pub open spec fn rec_ok(r: Seq<char>) -> bool {
    let fs = rec_fields(r);
    &&& fs.len() == 4
    &&& if is_sentinel_rec(r) {
        is_i32_str(fs[3])
    } else {
        is_i32_str(fs[0]) && is_float_str(fs[1]) && is_float_str(fs[2]) && is_i32_str(fs[3])
    }
}

/// The input sample a non-sentinel record denotes.
pub open spec fn frame_of(r: Seq<char>) -> FrameView {
    let fs = rec_fields(r);
    FrameView {
        delta: i32_str_val(fs[0]) as i32,
        x: fs[1],
        y: fs[2],
        keys: i32_str_val(fs[3]) as i32,
    }
}

/// The seed a sentinel record carries in its fourth field.
pub open spec fn seed_of(r: Seq<char>) -> i32 {
    i32_str_val(rec_fields(r)[3]) as i32
}

/// Whether any record in the list is a sentinel.
pub open spec fn has_sentinel(rs: Seq<Seq<char>>) -> bool {
    exists|i: int| 0 <= i < rs.len() && is_sentinel_rec(#[trigger] rs[i])
}

/// Folds a record list into the input-sample sequence and the seed:
/// non-sentinel records become samples in stream order, sentinel
/// records only set the seed (the last one wins), and any ill-formed
/// record is a fatal parse error.
pub open spec fn parse_records(rs: Seq<Seq<char>>) -> Result<(Seq<FrameView>, i32), DecodeError>
    decreases rs.len(),
{
    if rs.len() == 0 {
        Ok((Seq::<FrameView>::empty(), 0))
    } else if !rec_ok(rs[0]) {
        Err(DecodeError::FrameParse)
    } else {
        match parse_records(rs.skip(1)) {
            Err(e) => Err(e),
            Ok(p) => if is_sentinel_rec(rs[0]) {
                Ok(
                    (
                        p.0,
                        if has_sentinel(rs.skip(1)) {
                            p.1
                        } else {
                            seed_of(rs[0])
                        },
                    ),
                )
            } else {
                Ok((seq![frame_of(rs[0])] + p.0, p.1))
            },
        }
    }
}

/// The whole frame text: one trailing `,` separator is discarded,
/// empty text means no records at all.
pub open spec fn parse_frames_spec(t: Seq<char>) -> Result<(Seq<FrameView>, i32), DecodeError> {
    let t2 = if t.len() > 0 && t.last() == ',' {
        t.drop_last()
    } else {
        t
    };
    if t2.len() == 0 {
        Ok((Seq::<FrameView>::empty(), 0))
    } else {
        parse_records(split_on(t2, ','))
    }
}

/// A record list without a sentinel folds to seed 0.
pub proof fn lemma_no_sentinel_seed(rs: Seq<Seq<char>>)
    requires
        !has_sentinel(rs),
        parse_records(rs) matches Ok(p),
    ensures
        parse_records(rs) matches Ok(p) && p.1 == 0,
    decreases rs.len(),
{
    if rs.len() == 0 {
    } else {
        assert(!is_sentinel_rec(rs[0]));
        assert forall|i: int| 0 <= i < rs.skip(1).len() implies !is_sentinel_rec(
            #[trigger] rs.skip(1)[i],
        ) by {
            assert(rs.skip(1)[i] == rs[i + 1]);
        }
        lemma_no_sentinel_seed(rs.skip(1));
    }
}

/// Decodes the decompressed frame text into the ordered input-sample
/// sequence and the pseudo-random seed (0 when no sentinel appears;
/// the last sentinel wins when several do).
#[verifier::rlimit(100)]
#[verifier::loop_isolation(false)]
pub fn parse_frames(text: &str) -> (r: Result<(Vec<ReplayFrame>, i32), DecodeError>)
    ensures
        match parse_frames_spec(text@) {
            Ok(p) => r matches Ok(q) && q.0@.map_values(|f: ReplayFrame| f@) == p.0 && q.1 == p.1,
            Err(e) => r == Err::<(Vec<ReplayFrame>, i32), DecodeError>(e),
        },
{
    let n = text.unicode_len();
    let body: &str = if n > 0 && text.get_char(n - 1) == ',' {
        text.substring_char(0, n - 1)
    } else {
        text
    };
    proof {
        if n > 0 && text@.last() == ',' {
            assert(body@ =~= text@.drop_last());
        }
    }
    if body.unicode_len() == 0 {
        let empty_frames: Vec<ReplayFrame> = Vec::new();
        proof {
            assert(empty_frames@.map_values(|f: ReplayFrame| f@) =~= Seq::<FrameView>::empty());
        }
        return Ok((empty_frames, 0));
    }
    let tokens = split_string(body, ',');
    let ghost rs = split_on(body@, ',');
    let sent: String = "-12345".to_owned();
    proof {
        reveal_strlit("-12345");
        assert(sent@ =~= sentinel_chars());
        assert(rs.skip(0) =~= rs);
    }
    let mut frames: Vec<ReplayFrame> = Vec::new();
    let mut seed: i32 = 0;
    proof {
        assert(frames@.map_values(|f: ReplayFrame| f@) =~= Seq::<FrameView>::empty());
        match parse_records(rs) {
            Ok(p) => {
                assert(Seq::<FrameView>::empty() + p.0 =~= p.0);
                if !has_sentinel(rs) {
                    lemma_no_sentinel_seed(rs);
                }
            },
            Err(_) => {},
        }
    }
    let mut i: usize = 0;
    while i < tokens.len()
        invariant
            0 <= i <= tokens.len(),
            tokens@.map_values(|t: String| t@) == rs,
            match parse_records(rs.skip(i as int)) {
                Err(e) => parse_records(rs) == Err::<(Seq<FrameView>, i32), DecodeError>(e),
                Ok(p) => parse_records(rs) matches Ok(q) && q.0 == frames@.map_values(
                    |f: ReplayFrame| f@,
                ) + p.0 && q.1 == (if has_sentinel(rs.skip(i as int)) {
                    p.1
                } else {
                    seed
                }),
            },
        decreases tokens.len() - i,
    {
        let ghost recs = rs.skip(i as int);
        let ghost rv = rs[i as int];
        proof {
            assert(recs[0] == rv);
            assert(recs.skip(1) =~= rs.skip(i as int + 1));
            assert(rv == tokens@[i as int]@);
        }
        let fields = split_string(tokens[i].as_str(), '|');
        let ghost fsv = rec_fields(rv);
        assert(fields@.map_values(|t: String| t@) == fsv);
        if fields.len() != 4 {
            assert(!rec_ok(rv));
            return Err(DecodeError::FrameParse);
        }
        assert(fsv[0] == fields@[0]@ && fsv[1] == fields@[1]@ && fsv[2] == fields@[2]@ && fsv[3]
            == fields@[3]@);
        let is_sent = fields[0].eq(&sent);
        assert(is_sent == is_sentinel_rec(rv));
        if is_sent {
            let v = match parse_i32(fields[3].as_str()) {
                Ok(v) => v,
                Err(e) => {
                    assert(!rec_ok(rv));
                    return Err(e);
                },
            };
            seed = v;
            proof {
                assert(rec_ok(rv));
                assert(v == seed_of(rv));
                assert(has_sentinel(recs));
            }
        } else {
            let delta = match parse_i32(fields[0].as_str()) {
                Ok(v) => v,
                Err(e) => {
                    assert(!rec_ok(rv));
                    return Err(e);
                },
            };
            if !is_float_token(fields[1].as_str()) {
                assert(!rec_ok(rv));
                return Err(DecodeError::FrameParse);
            }
            if !is_float_token(fields[2].as_str()) {
                assert(!rec_ok(rv));
                return Err(DecodeError::FrameParse);
            }
            let keys = match parse_i32(fields[3].as_str()) {
                Ok(v) => v,
                Err(e) => {
                    assert(!rec_ok(rv));
                    return Err(e);
                },
            };
            let x = fields[1].clone();
            let y = fields[2].clone();
            frames.push(ReplayFrame { delta, x, y, keys });
            proof {
                assert(rec_ok(rv));
                assert(frames@.last()@ =~= frame_of(rv));
                assert(frames@.map_values(|f: ReplayFrame| f@) =~= frames@.drop_last().map_values(
                    |f: ReplayFrame| f@,
                ) + seq![frame_of(rv)]);
                assert(!is_sentinel_rec(rv));
                assert(has_sentinel(recs) == has_sentinel(rs.skip(i as int + 1))) by {
                    if has_sentinel(recs) {
                        let w = choose|w: int| 0 <= w < recs.len() && is_sentinel_rec(
                            #[trigger] recs[w],
                        );
                        assert(w != 0);
                        assert(recs.skip(1)[w - 1] == recs[w]);
                        assert(has_sentinel(recs.skip(1)));
                    }
                    if has_sentinel(recs.skip(1)) {
                        let w = choose|w: int| 0 <= w < recs.skip(1).len() && is_sentinel_rec(
                            #[trigger] recs.skip(1)[w],
                        );
                        assert(recs[w + 1] == recs.skip(1)[w]);
                        assert(has_sentinel(recs));
                    }
                }
            }
        }
        i = i + 1;
    }
    proof {
        assert(rs.skip(tokens@.len() as int) =~= Seq::<Seq<char>>::empty());
        assert(parse_records(Seq::<Seq<char>>::empty()) == Ok::<(Seq<FrameView>, i32), DecodeError>(
            (Seq::<FrameView>::empty(), 0),
        ));
        assert(!has_sentinel(Seq::<Seq<char>>::empty()));
        assert(frames@.map_values(|f: ReplayFrame| f@) + Seq::<FrameView>::empty()
            =~= frames@.map_values(|f: ReplayFrame| f@));
    }
    Ok((frames, seed))
}


/// Filtering a sequence with an element prepended keeps or drops the
/// head and filters the rest.
proof fn lemma_filter_cons<A>(x: A, rest: Seq<A>, p: spec_fn(A) -> bool)
    ensures
        (seq![x] + rest).filter(p) == (if p(x) {
            seq![x]
        } else {
            Seq::<A>::empty()
        }) + rest.filter(p),
    decreases rest.len(),
{
    reveal(Seq::filter);
    let s = seq![x] + rest;
    if rest.len() == 0 {
        assert(s.drop_last() =~= Seq::<A>::empty());
        assert(s.last() == x);
        if p(x) {
            assert(s.filter(p) =~= seq![x] + rest.filter(p));
        } else {
            assert(s.filter(p) =~= Seq::<A>::empty() + rest.filter(p));
        }
    } else {
        lemma_filter_cons(x, rest.drop_last(), p);
        assert(s.drop_last() =~= seq![x] + rest.drop_last());
        assert(s.last() == rest.last());
        if p(x) {
            if p(rest.last()) {
                assert((seq![x] + rest.drop_last().filter(p)).push(rest.last()) =~= seq![x]
                    + rest.drop_last().filter(p).push(rest.last()));
            }
            assert(s.filter(p) =~= seq![x] + rest.filter(p));
        } else {
            if p(rest.last()) {
                assert((Seq::<A>::empty() + rest.drop_last().filter(p)).push(rest.last())
                    =~= Seq::<A>::empty() + rest.drop_last().filter(p).push(rest.last()));
            }
            assert(s.filter(p) =~= Seq::<A>::empty() + rest.filter(p));
        }
    }
}

/// Sentinel exclusion: when the fold succeeds, the sample sequence is
/// exactly the non-sentinel records, in stream order, each turned into
/// its input sample; sentinel records contribute no sample.
pub proof fn lemma_sentinel_exclusion(rs: Seq<Seq<char>>)
    requires
        parse_records(rs) matches Ok(p),
    ensures
        parse_records(rs) matches Ok(p) && p.0 == rs.filter(
            |r: Seq<char>| !is_sentinel_rec(r),
        ).map_values(|r: Seq<char>| frame_of(r)),
    decreases rs.len(),
{
    reveal(Seq::filter);
    let p = |r: Seq<char>| !is_sentinel_rec(r);
    let f = |r: Seq<char>| frame_of(r);
    if rs.len() == 0 {
        assert(rs.filter(p).map_values(f) =~= Seq::<FrameView>::empty());
    } else {
        lemma_sentinel_exclusion(rs.skip(1));
        assert(rs =~= seq![rs[0]] + rs.skip(1));
        lemma_filter_cons(rs[0], rs.skip(1), p);
        if is_sentinel_rec(rs[0]) {
            assert((seq![rs[0]] + rs.skip(1)).filter(p) == Seq::<Seq<char>>::empty() + rs.skip(
                1,
            ).filter(p));
            assert(Seq::<Seq<char>>::empty() + rs.skip(1).filter(p) =~= rs.skip(1).filter(p));
            assert(rs.filter(p).map_values(f) == rs.skip(1).filter(p).map_values(f));
        } else {
            assert((seq![rs[0]] + rs.skip(1)).filter(p) == seq![rs[0]] + rs.skip(1).filter(p));
            assert(rs.filter(p).map_values(f) =~= seq![frame_of(rs[0])] + rs.skip(1).filter(
                p,
            ).map_values(f));
        }
    }
}

/// Last-write-wins seed: when the final record is the sentinel, the
/// decoded seed is the one that record carries.
pub proof fn lemma_trailing_sentinel_seed(rs: Seq<Seq<char>>)
    requires
        rs.len() > 0,
        is_sentinel_rec(rs.last()),
        parse_records(rs) matches Ok(p),
    ensures
        parse_records(rs) matches Ok(p) && p.1 == seed_of(rs.last()),
    decreases rs.len(),
{
    if rs.len() == 1 {
        assert(rs[0] == rs.last());
        assert(rs.skip(1) =~= Seq::<Seq<char>>::empty());
        assert(!has_sentinel(rs.skip(1)));
    } else {
        assert(rs.skip(1).last() == rs.last());
        lemma_trailing_sentinel_seed(rs.skip(1));
        assert(is_sentinel_rec(rs.skip(1)[rs.skip(1).len() - 1]));
        assert(has_sentinel(rs.skip(1)));
    }
}

} // verus!
