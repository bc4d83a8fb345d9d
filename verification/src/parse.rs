use vstd::prelude::*;
use vstd::string::StrSliceExecFns;
use crate::chars::{
    spec_is_digit, is_digit_char, spec_ascii_lower, ascii_lower_char, str_to_chars,
};

verus! {

// ------------------------------------------------------------------
// Category order: value of the longest prefix of ASCII digits, 1 when
// there is none or it does not fit in a `u32`.
// ------------------------------------------------------------------

/// Value of a sequence of ASCII digits read in base ten.
pub open spec fn digits_val(s: Seq<char>) -> nat
    decreases s.len(),
{
    if s.len() == 0 {
        0
    } else {
        digits_val(s.drop_last()) * 10 + ((s.last() as int - '0' as int) as nat)
    }
}

/// Length of the longest prefix of ASCII digits.
pub open spec fn digit_prefix_len(s: Seq<char>) -> int
    decreases s.len(),
{
    if s.len() == 0 || !spec_is_digit(s[0]) {
        0
    } else {
        1 + digit_prefix_len(s.skip(1))
    }
}

proof fn lemma_digit_prefix_len(s: Seq<char>, k: int)
    requires
        0 <= k <= s.len(),
        forall|j: int| 0 <= j < k ==> spec_is_digit(s[j]),
        k == s.len() || !spec_is_digit(s[k]),
    ensures
        digit_prefix_len(s) == k,
    decreases s.len(),
{
    if k == 0 {
        if s.len() != 0 {
            assert(!spec_is_digit(s[0]));
        }
    } else {
        assert(spec_is_digit(s[0]));
        let t = s.skip(1);
        assert forall|j: int| 0 <= j < k - 1 implies spec_is_digit(t[j]) by {
            assert(t[j] == s[j + 1]);
        }
        if k - 1 < t.len() {
            assert(t[k - 1] == s[k]);
        }
        lemma_digit_prefix_len(t, k - 1);
    }
}

/// Order hint of a category folder name: its longest prefix of ASCII digits
/// read as an unsigned integer, or 1 when there is no digit or the value
/// does not fit in a `u32`.
pub open spec fn spec_category_order(s: Seq<char>) -> u32 {
    let p = s.take(digit_prefix_len(s));
    if p.len() == 0 || digits_val(p) > u32::MAX {
        1u32
    } else {
        digits_val(p) as u32
    }
}

pub fn category_order(name: &str) -> (r: u32)
    ensures
        r == spec_category_order(name@),
{
    let cs: Vec<char> = str_to_chars(name);
    let n: usize = cs.len();
    let mut k: usize = 0;
    while k < n && is_digit_char(cs[k])
        invariant
            0 <= k <= n,
            n == cs@.len(),
            cs@ == name@,
            forall|j: int| 0 <= j < k ==> spec_is_digit(cs@[j]),
        decreases n - k,
    {
        k = k + 1;
    }
    proof {
        lemma_digit_prefix_len(name@, k as int);
    }
    let ghost p = name@.take(k as int);
    let mut acc: u64 = 0;
    let mut i: usize = 0;
    while i < k
        invariant
            0 <= i <= k <= n,
            n == cs@.len(),
            cs@ == name@,
            forall|j: int| 0 <= j < k ==> spec_is_digit(cs@[j]),
            p == name@.take(k as int),
            acc <= 0x1_0000_0000u64,
            digits_val(p.take(i as int)) <= u32::MAX ==> acc == digits_val(p.take(i as int)),
            digits_val(p.take(i as int)) > u32::MAX ==> acc == 0x1_0000_0000u64,
        decreases k - i,
    {
        let c: char = cs[i];
        proof {
            assert(p.take(i + 1).drop_last() =~= p.take(i as int));
            assert(p.take(i + 1).last() == p[i as int]);
            assert(p[i as int] == name@[i as int]);
        }
        let ghost vcur = digits_val(p.take(i as int));
        let ghost vnext = digits_val(p.take(i + 1));
        let d: u64 = (c as u32 as u64) - 48;
        proof {
            assert(spec_is_digit(c));
            assert(vnext == vcur * 10 + (c as int - '0' as int));
        }
        let t: u64 = acc * 10 + d;
        if t > 0xFFFF_FFFFu64 {
            acc = 0x1_0000_0000u64;
            proof {
                if vcur <= u32::MAX {
                    assert(vnext > u32::MAX);
                } else {
                    assert(vnext >= vcur * 10) by {
                        assert(vcur * 10 >= vcur * 1) by (nonlinear_arith)
                            requires vcur >= 0;
                    }
                }
            }
        } else {
            acc = t;
            proof {
                if vcur > u32::MAX {
                    assert(false);
                }
            }
        }
        i = i + 1;
    }
    proof {
        assert(p.take(k as int) =~= p);
    }
    if k == 0 {
        1
    } else if acc > 0xFFFF_FFFFu64 {
        1
    } else {
        acc as u32
    }
}

// ------------------------------------------------------------------
// The strings `str::parse` accepts as floating-point numbers, after the
// grammar that std documents for `f32::from_str`: an optional sign, then
// `inf`, `infinity` or `nan` ignoring case, or digits with at most one
// point and at least one digit, then an optional exponent part.
// ------------------------------------------------------------------

/// Every character an ASCII digit.
pub open spec fn all_digits(s: Seq<char>) -> bool {
    forall|i: int| 0 <= i < s.len() ==> spec_is_digit(s[i])
}

/// Digits with at most one `.` among them and at least one digit.
pub open spec fn spec_is_mantissa(s: Seq<char>) -> bool {
    &&& forall|i: int| 0 <= i < s.len() ==> (spec_is_digit(s[i]) || s[i] == '.')
    &&& forall|i: int, j: int| 0 <= i < j < s.len() ==> !(s[i] == '.' && s[j] == '.')
    &&& exists|i: int| 0 <= i < s.len() && spec_is_digit(s[i])
}

/// What may follow the exponent marker: an optional sign, then digits.
pub open spec fn spec_is_exp_tail(s: Seq<char>) -> bool {
    let t = if s.len() > 0 && (s[0] == '+' || s[0] == '-') {
        s.skip(1)
    } else {
        s
    };
    t.len() > 0 && all_digits(t)
}

/// `inf`, `infinity` or `nan`, ignoring ASCII case.
pub open spec fn spec_is_inf_nan(s: Seq<char>) -> bool {
    ||| (s.len() == 3 && spec_ascii_lower(s[0]) == 'i' && spec_ascii_lower(s[1]) == 'n'
        && spec_ascii_lower(s[2]) == 'f')
    ||| (s.len() == 8 && spec_ascii_lower(s[0]) == 'i' && spec_ascii_lower(s[1]) == 'n'
        && spec_ascii_lower(s[2]) == 'f' && spec_ascii_lower(s[3]) == 'i'
        && spec_ascii_lower(s[4]) == 'n' && spec_ascii_lower(s[5]) == 'i'
        && spec_ascii_lower(s[6]) == 't' && spec_ascii_lower(s[7]) == 'y')
    ||| (s.len() == 3 && spec_ascii_lower(s[0]) == 'n' && spec_ascii_lower(s[1]) == 'a'
        && spec_ascii_lower(s[2]) == 'n')
}

/// Position of the first `e` or `E`, or the length when there is none.
pub open spec fn exp_pos(s: Seq<char>) -> int
    decreases s.len(),
{
    if s.len() == 0 {
        0
    } else if s[0] == 'e' || s[0] == 'E' {
        0
    } else {
        1 + exp_pos(s.skip(1))
    }
}

proof fn lemma_exp_pos(s: Seq<char>, k: int)
    requires
        0 <= k <= s.len(),
        forall|j: int| 0 <= j < k ==> !(s[j] == 'e' || s[j] == 'E'),
        k == s.len() || s[k] == 'e' || s[k] == 'E',
    ensures
        exp_pos(s) == k,
    decreases s.len(),
{
    if k == 0 {
    } else {
        let t = s.skip(1);
        assert forall|j: int| 0 <= j < k - 1 implies !(t[j] == 'e' || t[j] == 'E') by {
            assert(t[j] == s[j + 1]);
        }
        if k - 1 < t.len() {
            assert(t[k - 1] == s[k]);
        }
        lemma_exp_pos(t, k - 1);
    }
}

/// A float literal without its sign.
pub open spec fn spec_is_float_body(s: Seq<char>) -> bool {
    if spec_is_inf_nan(s) {
        true
    } else {
        let j = exp_pos(s);
        if j == s.len() {
            spec_is_mantissa(s)
        } else {
            spec_is_mantissa(s.take(j)) && spec_is_exp_tail(s.skip(j + 1))
        }
    }
}

/// The strings on which `str::parse` to a 32-bit float returns a value.
pub open spec fn spec_is_float_literal(s: Seq<char>) -> bool {
    let t = if s.len() > 0 && (s[0] == '+' || s[0] == '-') {
        s.skip(1)
    } else {
        s
    };
    spec_is_float_body(t)
}

/// The characters of `v` between `from` and `to`.
pub fn subvec(v: &Vec<char>, from: usize, to: usize) -> (r: Vec<char>)
    requires
        from <= to <= v@.len(),
    ensures
        r@ == v@.subrange(from as int, to as int),
{
    let mut r: Vec<char> = Vec::new();
    let mut i: usize = from;
    while i < to
        invariant
            from <= i <= to <= v@.len(),
            r@ == v@.subrange(from as int, i as int),
        decreases to - i,
    {
        r.push(v[i]);
        i = i + 1;
        proof {
            assert(r@ =~= v@.subrange(from as int, i as int));
        }
    }
    r
}

fn is_mantissa_chars(v: &Vec<char>) -> (r: bool)
    ensures
        r == spec_is_mantissa(v@),
{
    let n: usize = v.len();
    let mut ok: bool = true;
    let mut dot_seen: bool = false;
    let mut multi_dot: bool = false;
    let mut digit_seen: bool = false;
    let mut i: usize = 0;
    while i < n
        invariant
            0 <= i <= n,
            n == v@.len(),
            ok == (forall|j: int| 0 <= j < i ==> (spec_is_digit(v@[j]) || v@[j] == '.')),
            dot_seen == (exists|j: int| 0 <= j < i && v@[j] == '.'),
            multi_dot == (exists|j: int, l: int| 0 <= j < l < i && v@[j] == '.' && v@[l] == '.'),
            digit_seen == (exists|j: int| 0 <= j < i && spec_is_digit(v@[j])),
        decreases n - i,
    {
        let c: char = v[i];
        if is_digit_char(c) {
            digit_seen = true;
        } else if c == '.' {
            if dot_seen {
                multi_dot = true;
            }
            dot_seen = true;
        } else {
            ok = false;
        }
        i = i + 1;
    }
    ok && !multi_dot && digit_seen
}

fn is_exp_tail_chars(v: &Vec<char>) -> (r: bool)
    ensures
        r == spec_is_exp_tail(v@),
{
    let n: usize = v.len();
    let s: usize = if n > 0 && (v[0] == '+' || v[0] == '-') {
        1
    } else {
        0
    };
    let ghost t = if n > 0 && (v@[0] == '+' || v@[0] == '-') {
        v@.skip(1)
    } else {
        v@
    };
    if n == s {
        proof {
            assert(t.len() == 0);
        }
        return false;
    }
    let mut i: usize = s;
    let mut ok: bool = true;
    while i < n
        invariant
            s <= i <= n,
            n == v@.len(),
            s == 0 || s == 1,
            t == v@.skip(s as int),
            ok == (forall|j: int| s <= j < i ==> spec_is_digit(v@[j])),
        decreases n - i,
    {
        if !is_digit_char(v[i]) {
            ok = false;
        }
        i = i + 1;
    }
    proof {
        if ok {
            assert forall|j: int| 0 <= j < t.len() implies spec_is_digit(t[j]) by {
                assert(t[j] == v@[j + s]);
            }
        } else {
            assert(exists|j: int| s <= j < n && !spec_is_digit(v@[j]));
            let j = choose|j: int| s <= j < n && !spec_is_digit(v@[j]);
            assert(t[j - s] == v@[j]);
            assert(!all_digits(t));
        }
    }
    ok
}

fn is_inf_nan_chars(v: &Vec<char>) -> (r: bool)
    ensures
        r == spec_is_inf_nan(v@),
{
    let n: usize = v.len();
    if n == 3 {
        let a: char = ascii_lower_char(v[0]);
        let b: char = ascii_lower_char(v[1]);
        let c: char = ascii_lower_char(v[2]);
        (a == 'i' && b == 'n' && c == 'f') || (a == 'n' && b == 'a' && c == 'n')
    } else if n == 8 {
        let mut low: Vec<char> = Vec::new();
        let mut i: usize = 0;
        while i < 8
            invariant
                0 <= i <= 8,
                n == v@.len(),
                n == 8,
                low@.len() == i,
                forall|j: int| 0 <= j < i ==> low@[j] == spec_ascii_lower(v@[j]),
            decreases 8 - i,
        {
            low.push(ascii_lower_char(v[i]));
            i = i + 1;
        }
        low[0] == 'i' && low[1] == 'n' && low[2] == 'f' && low[3] == 'i' && low[4] == 'n'
            && low[5] == 'i' && low[6] == 't' && low[7] == 'y'
    } else {
        false
    }
}

/// Whether the characters form a string that `str::parse` accepts as a
/// 32-bit float.
pub fn is_float_literal_chars(v: &Vec<char>) -> (r: bool)
    ensures
        r == spec_is_float_literal(v@),
{
    let n: usize = v.len();
    let s: usize = if n > 0 && (v[0] == '+' || v[0] == '-') {
        1
    } else {
        0
    };
    let body: Vec<char> = subvec(v, s, n);
    proof {
        if n > 0 && (v@[0] == '+' || v@[0] == '-') {
            assert(body@ =~= v@.skip(1));
        } else {
            assert(body@ =~= v@);
        }
    }
    if is_inf_nan_chars(&body) {
        return true;
    }
    let m: usize = body.len();
    let mut j: usize = 0;
    while j < m && !(body[j] == 'e' || body[j] == 'E')
        invariant
            0 <= j <= m,
            m == body@.len(),
            forall|l: int| 0 <= l < j ==> !(body@[l] == 'e' || body@[l] == 'E'),
        decreases m - j,
    {
        j = j + 1;
    }
    proof {
        lemma_exp_pos(body@, j as int);
    }
    if j == m {
        is_mantissa_chars(&body)
    } else {
        let mant: Vec<char> = subvec(&body, 0, j);
        let etail: Vec<char> = subvec(&body, j + 1, m);
        proof {
            assert(mant@ =~= body@.take(j as int));
            assert(etail@ =~= body@.skip(j + 1));
        }
        let rm: bool = is_mantissa_chars(&mant);
        let re: bool = is_exp_tail_chars(&etail);
        rm && re
    }
}

// ------------------------------------------------------------------
// Splitting a file name into stem and lower-cased extension, the way
// `Path::file_stem` and `Path::extension` do.
// ------------------------------------------------------------------

/// Index of the last `.`, or -1 when there is none.
pub open spec fn last_dot(s: Seq<char>) -> int
    decreases s.len(),
{
    if s.len() == 0 {
        -1
    } else if s.last() == '.' {
        s.len() - 1
    } else {
        last_dot(s.drop_last())
    }
}

pub proof fn lemma_last_dot_at(s: Seq<char>, k: int)
    requires
        0 <= k < s.len(),
        s[k] == '.',
        forall|j: int| k < j < s.len() ==> s[j] != '.',
    ensures
        last_dot(s) == k,
    decreases s.len(),
{
    if k == s.len() - 1 {
    } else {
        assert(s.last() != '.');
        let t = s.drop_last();
        assert(t[k] == s[k]);
        assert forall|j: int| k < j < t.len() implies t[j] != '.' by {
            assert(t[j] == s[j]);
        }
        lemma_last_dot_at(t, k);
    }
}

pub proof fn lemma_last_dot_none(s: Seq<char>)
    requires
        forall|j: int| 0 <= j < s.len() ==> s[j] != '.',
    ensures
        last_dot(s) == -1,
    decreases s.len(),
{
    if s.len() > 0 {
        lemma_last_dot_none(s.drop_last());
    }
}

/// A file name carries an extension when its last `.` is not its first
/// character; a leading `.` alone marks a hidden file, not an extension.
pub open spec fn spec_ext_exists(s: Seq<char>) -> bool {
    last_dot(s) >= 1
}

/// Every character mapped through `spec_ascii_lower`.
pub open spec fn lower_seq(s: Seq<char>) -> Seq<char> {
    s.map(|i: int, c: char| spec_ascii_lower(c))
}

/// The lower-cased extension: what follows the last `.`.
pub open spec fn spec_ext_of(s: Seq<char>) -> Seq<char> {
    lower_seq(s.skip(last_dot(s) + 1))
}

/// The stem: what stands before the last `.`, or the whole name when there
/// is no extension.
pub open spec fn spec_stem_of(s: Seq<char>) -> Seq<char> {
    if spec_ext_exists(s) {
        s.take(last_dot(s))
    } else {
        s
    }
}

/// Splits a file name into its stem and, when one exists, its lower-cased
/// extension.
pub fn split_stem_ext(cs: &Vec<char>) -> (r: (Vec<char>, Option<Vec<char>>))
    ensures
        r.0@ == spec_stem_of(cs@),
        spec_ext_exists(cs@) ==> r.1 is Some && r.1->0@ == spec_ext_of(cs@),
        !spec_ext_exists(cs@) ==> r.1 is None,
{
    let n: usize = cs.len();
    let mut j: usize = n;
    while j > 0 && cs[j - 1] != '.'
        invariant
            0 <= j <= n,
            n == cs@.len(),
            forall|l: int| j <= l < n ==> cs@[l] != '.',
        decreases j,
    {
        j = j - 1;
    }
    if j <= 1 {
        proof {
            if j == 0 {
                lemma_last_dot_none(cs@);
            } else {
                lemma_last_dot_at(cs@, 0);
            }
        }
        let stem: Vec<char> = subvec(cs, 0, n);
        proof {
            assert(stem@ =~= cs@);
        }
        (stem, None)
    } else {
        proof {
            lemma_last_dot_at(cs@, j - 1);
        }
        let stem: Vec<char> = subvec(cs, 0, j - 1);
        let raw: Vec<char> = subvec(cs, j, n);
        let mut ext: Vec<char> = Vec::new();
        let mut i: usize = 0;
        while i < raw.len()
            invariant
                0 <= i <= raw@.len(),
                ext@.len() == i,
                forall|l: int| 0 <= l < i ==> ext@[l] == spec_ascii_lower(raw@[l]),
            decreases raw.len() - i,
        {
            ext.push(ascii_lower_char(raw[i]));
            i = i + 1;
        }
        proof {
            assert(raw@ =~= cs@.skip(last_dot(cs@) + 1));
            assert(ext@ =~= lower_seq(raw@));
        }
        (stem, Some(ext))
    }
}

// ------------------------------------------------------------------
// The supported extensions.
// ------------------------------------------------------------------

/// The extensions a trait file may carry.
pub open spec fn spec_is_supported(e: Seq<char>) -> bool {
    ||| e == "svg"@
    ||| e == "png"@
    ||| e == "jpg"@
    ||| e == "jpeg"@
    ||| e == "gif"@
    ||| e == "webp"@
    ||| e == "avif"@
}

/// Whether the characters equal the string slice.
pub fn chars_eq_str(v: &Vec<char>, s: &str) -> (r: bool)
    ensures
        r == (v@ == s@),
{
    let n: usize = s.unicode_len();
    if v.len() != n {
        proof {
            if v@ == s@ {
                assert(v@.len() == s@.len());
            }
        }
        return false;
    }
    let mut i: usize = 0;
    while i < n
        invariant
            0 <= i <= n,
            n == v@.len(),
            n == s@.len(),
            forall|j: int| 0 <= j < i ==> v@[j] == s@[j],
        decreases n - i,
    {
        if v[i] != s.get_char(i) {
            return false;
        }
        i = i + 1;
    }
    proof {
        assert(v@ =~= s@);
    }
    true
}

pub fn is_supported_ext(e: &Vec<char>) -> (r: bool)
    ensures
        r == spec_is_supported(e@),
{
    chars_eq_str(e, "svg") || chars_eq_str(e, "png") || chars_eq_str(e, "jpg")
        || chars_eq_str(e, "jpeg") || chars_eq_str(e, "gif") || chars_eq_str(e, "webp")
        || chars_eq_str(e, "avif")
}

} // verus!
