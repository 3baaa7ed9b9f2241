//! Search parameters: the parsed constellation pattern and the numbers that
//! select the primorial, its offset and the prime table.
use vstd::prelude::*;

verus! {

/// Command-line parameters of a search (the values that `main` receives).
pub struct Args {
    /// Number of decimal digits in the target.
    pub digits: u32,
    /// Primorial number (0 = auto-select based on digit count).
    pub m: u64,
    /// Primorial offset (0 = auto-select based on pattern).
    pub o: u64,
    /// Constellation pattern (comma-separated offsets).
    pub pattern: String,
    /// Upper limit for prime table generation.
    pub table_limit: u64,
    /// Stats printing interval in seconds.
    pub stats_interval: u64,
    /// Number of worker threads.
    pub threads: usize,
    /// Number of sieve iterations per target.
    pub sieve_iterations: u32,
    /// Number of dedicated sieve workers (0 = monolithic mode).
    pub sieve_workers: u32,
    /// Path to the GPU service socket (empty = CPU-only mode).
    pub gpu_socket: String,
    /// Number of candidates per GPU batch.
    pub gpu_batch_size: u32,
}

/// The parameters shared by every worker.
pub struct Config {
    pub digits: u32,
    pub pattern: Vec<u64>,
    /// `half_pattern[k]` is half the gap between pattern elements `k - 1` and `k`.
    pub half_pattern: Vec<u64>,
    pub m: u64,
    pub o: u64,
    pub prime_table_limit: u64,
    pub threads: usize,
    pub sieve_iterations: u32,
}

/// `c` has the Unicode `White_Space` property (what `char::is_whitespace` tests).
pub open spec fn is_whitespace_char(c: char) -> bool {
    let v = c as u32;
    (0x09 <= v <= 0x0d) || v == 0x20 || v == 0x85 || v == 0xa0 || v == 0x1680 || (0x2000 <= v
        <= 0x200a) || v == 0x2028 || v == 0x2029 || v == 0x202f || v == 0x205f || v == 0x3000
}

/// `s` without its leading whitespace.
pub open spec fn trim_start_spec(s: Seq<char>) -> Seq<char>
    decreases s.len(),
{
    if s.len() > 0 && is_whitespace_char(s[0]) {
        trim_start_spec(s.drop_first())
    } else {
        s
    }
}

/// `s` without its trailing whitespace.
pub open spec fn trim_end_spec(s: Seq<char>) -> Seq<char>
    decreases s.len(),
{
    if s.len() > 0 && is_whitespace_char(s.last()) {
        trim_end_spec(s.drop_last())
    } else {
        s
    }
}

/// `s` without leading and trailing whitespace (as `str::trim` returns it).
pub open spec fn trim_spec(s: Seq<char>) -> Seq<char> {
    trim_end_spec(trim_start_spec(s))
}

/// The fields of `s` separated by `','` (as `str::split(',')` yields them):
/// always at least one, possibly empty, field.
pub open spec fn split_fields(s: Seq<char>) -> Seq<Seq<char>>
    decreases s.len(),
{
    if s.len() == 0 {
        seq![Seq::<char>::empty()]
    } else {
        let prev = split_fields(s.drop_last());
        if s.last() == ',' {
            prev.push(Seq::<char>::empty())
        } else {
            prev.update(prev.len() - 1, prev.last().push(s.last()))
        }
    }
}

/// `c` is one of the ASCII digits `'0'..='9'`.
pub open spec fn is_digit_char(c: char) -> bool {
    48 <= (c as u32) <= 57
}

/// The value of a string of decimal digits.
pub open spec fn decimal_value(d: Seq<char>) -> nat
    decreases d.len(),
{
    if d.len() == 0 {
        0
    } else {
        decimal_value(d.drop_last()) * 10 + ((d.last() as u32) - 48) as nat
    }
}

/// `f` without one leading `'+'`, if it has one.
pub open spec fn strip_plus(f: Seq<char>) -> Seq<char> {
    if f.len() > 0 && f[0] == '+' {
        f.drop_first()
    } else {
        f
    }
}

/// Every character of `d` is an ASCII digit.
pub open spec fn all_digits(d: Seq<char>) -> bool {
    forall|k: int| 0 <= k < d.len() ==> #[trigger] is_digit_char(d[k])
}

/// What `<u64 as FromStr>::from_str` returns for `f`: an optional `'+'`,
/// then at least one ASCII digit and nothing else, with a value that fits.
pub open spec fn parse_u64_spec(f: Seq<char>) -> Option<u64> {
    let d = strip_plus(f);
    if d.len() > 0 && all_digits(d) && decimal_value(d) <= u64::MAX {
        Some(decimal_value(d) as u64)
    } else {
        None
    }
}

/// One pattern field: trimmed, then read as a `u64`.
pub open spec fn parse_field_spec(f: Seq<char>) -> Option<u64> {
    parse_u64_spec(trim_spec(f))
}

/// The pattern that `s` denotes, if every comma-separated field is a
/// (whitespace-padded) `u64`.
pub open spec fn parse_pattern_spec(s: Seq<char>) -> Option<Seq<u64>> {
    let fields = split_fields(s);
    if forall|k: int| 0 <= k < fields.len() ==> #[trigger] parse_field_spec(fields[k]) is Some {
        Some(Seq::new(fields.len(), |k: int| parse_field_spec(fields[k])->0))
    } else {
        None
    }
}

/// The half gaps of a pattern: `0` first, then half of each gap (rounded down).
pub open spec fn half_pattern_spec(pattern: Seq<u64>) -> Seq<u64> {
    Seq::new(
        pattern.len(),
        |k: int|
            if k == 0 {
                0u64
            } else {
                ((pattern[k] - pattern[k - 1]) / 2) as u64
            },
    )
}

/// The pattern never decreases (so every gap is non-negative).
pub open spec fn pattern_nondecreasing(pattern: Seq<u64>) -> bool {
    forall|k: int| 1 <= k < pattern.len() ==> pattern[k - 1] <= #[trigger] pattern[k]
}

pub(crate) proof fn lemma_split_fields_len(s: Seq<char>)
    ensures
        split_fields(s).len() >= 1,
    decreases s.len(),
{
    if s.len() > 0 {
        lemma_split_fields_len(s.drop_last());
    }
}

/// Appending characters never changes a field that was already complete.
proof fn lemma_split_fields_prefix(s: Seq<char>, i: int)
    requires
        0 <= i <= s.len(),
    ensures
        split_fields(s.take(i)).len() <= split_fields(s).len(),
        forall|k: int|
            0 <= k < split_fields(s.take(i)).len() - 1 ==> #[trigger] split_fields(s)[k]
                == split_fields(s.take(i))[k],
    decreases s.len() - i,
{
    lemma_split_fields_len(s.take(i));
    if i < s.len() {
        lemma_split_fields_prefix(s, i + 1);
        let a = s.take(i);
        let b = s.take(i + 1);
        assert(b.drop_last() == a);
        lemma_split_fields_len(a);
    } else {
        assert(s.take(i) == s);
    }
}

/// The characters of `s`, in order.
pub(crate) fn collect_chars(s: &str) -> (r: Vec<char>)
    ensures
        r@ == s@,
{
    let mut out: Vec<char> = Vec::new();
    for c in it: s.chars()
        invariant
            out@ == it.seq().take(it.index()),
    {
        out.push(c);
    }
    proof {
        broadcast use vstd::string::axiom_spec_iter;

    }
    out
}

fn is_whitespace(c: char) -> (r: bool)
    ensures
        r == is_whitespace_char(c),
{
    let v = c as u32;
    (0x09 <= v && v <= 0x0d) || v == 0x20 || v == 0x85 || v == 0xa0 || v == 0x1680 || (0x2000 <= v
        && v <= 0x200a) || v == 0x2028 || v == 0x2029 || v == 0x202f || v == 0x205f || v == 0x3000
}

pub(crate) proof fn lemma_trim_start_skip(s: Seq<char>, a: int)
    requires
        0 <= a <= s.len(),
        forall|k: int| 0 <= k < a ==> #[trigger] is_whitespace_char(s[k]),
    ensures
        trim_start_spec(s) == trim_start_spec(s.subrange(a, s.len() as int)),
    decreases a,
{
    if a > 0 {
        lemma_trim_start_skip(s.drop_first(), a - 1);
        assert(s.drop_first().subrange(a - 1, s.drop_first().len() as int) == s.subrange(
            a,
            s.len() as int,
        ));
    } else {
        assert(s.subrange(0, s.len() as int) == s);
    }
}

pub(crate) proof fn lemma_trim_end_skip(s: Seq<char>, b: int)
    requires
        0 <= b <= s.len(),
        forall|k: int| b <= k < s.len() ==> #[trigger] is_whitespace_char(s[k]),
    ensures
        trim_end_spec(s) == trim_end_spec(s.take(b)),
    decreases s.len() - b,
{
    if b < s.len() {
        lemma_trim_end_skip(s.drop_last(), b);
        assert(s.drop_last().take(b) == s.take(b));
    } else {
        assert(s.take(b) == s);
    }
}

/// Parse the field `chars[lo..hi]`: trim it, then read it as a `u64`.
fn parse_field(chars: &Vec<char>, lo: usize, hi: usize) -> (r: Option<u64>)
    requires
        lo <= hi <= chars@.len(),
    ensures
        r == parse_field_spec(chars@.subrange(lo as int, hi as int)),
{
    let ghost f = chars@.subrange(lo as int, hi as int);
    let mut a = lo;
    while a < hi && is_whitespace(chars[a])
        invariant
            lo <= a <= hi <= chars@.len(),
            forall|k: int| lo <= k < a ==> #[trigger] is_whitespace_char(chars@[k]),
        decreases hi - a,
    {
        a = a + 1;
    }
    let ghost ts = f.subrange(a - lo, f.len() as int);
    proof {
        assert forall|k: int| 0 <= k < a - lo implies #[trigger] is_whitespace_char(f[k]) by {
            assert(f[k] == chars@[lo + k]);
        }
        lemma_trim_start_skip(f, a - lo);
        assert(ts == chars@.subrange(a as int, hi as int));
        if a < hi {
            assert(!is_whitespace_char(ts[0]));
        }
        assert(trim_start_spec(ts) == ts);
    }
    let mut b = hi;
    while b > a && is_whitespace(chars[b - 1])
        invariant
            lo <= a <= b <= hi <= chars@.len(),
            forall|k: int| b <= k < hi ==> #[trigger] is_whitespace_char(chars@[k]),
        decreases b - a,
    {
        b = b - 1;
    }
    let ghost t = chars@.subrange(a as int, b as int);
    proof {
        assert forall|k: int| b - a <= k < ts.len() implies #[trigger] is_whitespace_char(ts[k]) by {
            assert(ts[k] == chars@[a + k]);
        }
        lemma_trim_end_skip(ts, b - a);
        assert(ts.take(b - a) == t);
        if b > a {
            assert(t.last() == chars@[b - 1]);
        }
        assert(trim_end_spec(t) == t);
        assert(trim_spec(f) == t);
    }
    // Optional sign, then digits.
    let mut d = a;
    if d < b && chars[d] == '+' {
        d = d + 1;
    }
    let ghost ds = chars@.subrange(d as int, b as int);
    assert(ds == strip_plus(t));
    if d == b {
        return None;
    }
    let mut value: u64 = 0;
    let mut k = d;
    while k < b
        invariant
            lo <= a <= d <= k <= b <= hi <= chars@.len(),
            d < b,
            ds == chars@.subrange(d as int, b as int),
            ds == strip_plus(t),
            t == trim_spec(f),
            f == chars@.subrange(lo as int, hi as int),
            forall|j: int| d <= j < k ==> #[trigger] is_digit_char(chars@[j]),
            value == decimal_value(chars@.subrange(d as int, k as int)),
        decreases b - k,
    {
        let c = chars[k];
        let ghost prefix = chars@.subrange(d as int, k as int);
        let ghost next = chars@.subrange(d as int, k + 1);
        assert(next.drop_last() == prefix);
        let cv = c as u32;
        if !(48 <= cv && cv <= 57) {
            proof {
                assert(ds[k - d] == c);
                assert(!is_digit_char(ds[k - d]));
                assert(parse_u64_spec(t) is None);
            }
            return None;
        }
        let digit = (cv - 48) as u64;
        match value.checked_mul(10) {
            None => {
                proof {
                    assert(ds.take(k - d + 1) == next);
                    if all_digits(ds) {
                        lemma_decimal_value_prefix_bound(ds, k - d + 1);
                    }
                    assert(parse_u64_spec(t) is None);
                }
                return None;
            },
            Some(times_ten) => match times_ten.checked_add(digit) {
                None => {
                    proof {
                        assert(ds.take(k - d + 1) == next);
                        if all_digits(ds) {
                            lemma_decimal_value_prefix_bound(ds, k - d + 1);
                        }
                        assert(parse_u64_spec(t) is None);
                    }
                    return None;
                },
                Some(v) => {
                    value = v;
                },
            },
        }
        k = k + 1;
    }
    assert(ds == chars@.subrange(d as int, k as int));
    Some(value)
}

/// The value of a digit string is at least the value of any of its prefixes.
proof fn lemma_decimal_value_prefix_bound(d: Seq<char>, i: int)
    requires
        0 <= i <= d.len(),
        all_digits(d),
    ensures
        decimal_value(d.take(i)) <= decimal_value(d),
    decreases d.len() - i,
{
    if i < d.len() {
        lemma_decimal_value_prefix_bound(d, i + 1);
        assert(d.take(i + 1).drop_last() == d.take(i));
    } else {
        assert(d.take(i) == d);
    }
}

impl Config {
    /// Parse a comma-separated constellation pattern such as `"0, 4, 6"`;
    /// `None` when some field is not a (whitespace-padded) `u64`.
    pub fn parse_pattern(s: &str) -> (r: Option<Vec<u64>>)
        ensures
            match r {
                Some(v) => parse_pattern_spec(s@) == Some(v@),
                None => parse_pattern_spec(s@) is None,
            },
    {
        let chars = collect_chars(s);
        let n = chars.len();
        let mut values: Vec<u64> = Vec::new();
        let mut field_start: usize = 0;
        let mut i: usize = 0;
        proof {
            assert(chars@.take(0) == Seq::<char>::empty());
        }
        while i < n
            invariant
                n == chars@.len(),
                chars@ == s@,
                field_start <= i <= n,
                split_fields(chars@.take(i as int)).len() == values@.len() + 1,
                split_fields(chars@.take(i as int)).last() == chars@.subrange(
                    field_start as int,
                    i as int,
                ),
                forall|k: int|
                    0 <= k < values@.len() ==> parse_field_spec(
                        #[trigger] split_fields(chars@.take(i as int))[k],
                    ) == Some(values@[k]),
            decreases n - i,
        {
            let ghost before = chars@.take(i as int);
            let ghost after = chars@.take(i + 1);
            assert(after.drop_last() == before);
            assert(after.last() == chars@[i as int]);
            if chars[i] == ',' {
                match parse_field(&chars, field_start, i) {
                    None => {
                        proof {
                            lemma_split_fields_prefix(chars@, i + 1);
                            assert(chars@.take(n as int) == chars@);
                            let k = values@.len() as int;
                            assert(split_fields(after)[k] == split_fields(before).last());
                            assert(split_fields(chars@)[k] == split_fields(after)[k]);
                        }
                        return None;
                    },
                    Some(v) => {
                        values.push(v);
                        field_start = i + 1;
                    },
                }
            } else {
                assert(chars@.subrange(field_start as int, i + 1) == chars@.subrange(
                    field_start as int,
                    i as int,
                ).push(chars@[i as int]));
            }
            i = i + 1;
        }
        assert(chars@.take(n as int) == chars@);
        match parse_field(&chars, field_start, n) {
            None => {
                None
            },
            Some(v) => {
                values.push(v);
                let ghost fields = split_fields(chars@);
                assert(values@ == Seq::new(
                    fields.len(),
                    |k: int| parse_field_spec(fields[k])->0,
                ));
                Some(values)
            },
        }
    }

    /// The half gaps of `pattern`: `0`, then `(pattern[k] - pattern[k - 1]) / 2`.
    pub fn compute_half_pattern(pattern: &[u64]) -> (half: Vec<u64>)
        requires
            pattern_nondecreasing(pattern@),
        ensures
            pattern@.len() >= 1 ==> half@ == half_pattern_spec(pattern@),
            pattern@.len() == 0 ==> half@ == seq![0u64],
    {
        let mut half: Vec<u64> = Vec::new();
        half.push(0);
        let mut k: usize = 1;
        while k < pattern.len()
            invariant
                pattern_nondecreasing(pattern@),
                1 <= k,
                pattern@.len() >= 1 ==> k <= pattern@.len(),
                pattern@.len() == 0 ==> k == 1,
                half@.len() == k,
                forall|j: int|
                    0 <= j < k ==> #[trigger] half@[j] == (if j == 0 {
                        0u64
                    } else {
                        ((pattern@[j] - pattern@[j - 1]) / 2) as u64
                    }),
            decreases pattern@.len() - k,
        {
            half.push((pattern[k] - pattern[k - 1]) / 2);
            k = k + 1;
        }
        proof {
            if pattern@.len() >= 1 {
                assert(half@ == half_pattern_spec(pattern@));
            } else {
                assert(half@ == seq![0u64]);
            }
        }
        half
    }

    /// A configuration from command-line values: parse the pattern and
    /// derive its half gaps.
    pub fn new(
        digits: u32,
        pattern_str: &str,
        m: u64,
        o: u64,
        prime_table_limit: u64,
        threads: usize,
        sieve_iterations: u32,
    ) -> (config: Self)
        requires
            parse_pattern_spec(pattern_str@) is Some,
            pattern_nondecreasing(parse_pattern_spec(pattern_str@)->0),
        ensures
            config.digits == digits,
            config.pattern@ == parse_pattern_spec(pattern_str@)->0,
            config.half_pattern@ == half_pattern_spec(config.pattern@),
            config.m == m,
            config.o == o,
            config.prime_table_limit == prime_table_limit,
            config.threads == threads,
            config.sieve_iterations == sieve_iterations,
    {
        let pattern = match Self::parse_pattern(pattern_str) {
            Some(p) => p,
            None => {
                proof {
                    assert(false);
                }
                Vec::new()
            },
        };
        proof {
            lemma_split_fields_len(pattern_str@);
        }
        let half_pattern = Self::compute_half_pattern(&pattern);
        Config {
            digits,
            pattern,
            half_pattern,
            m,
            o,
            prime_table_limit,
            threads,
            sieve_iterations,
        }
    }

    /// `Config::new` where the pattern is valid (it parses and never
    /// decreases), `None` otherwise.
    pub fn try_new(
        digits: u32,
        pattern_str: &str,
        m: u64,
        o: u64,
        prime_table_limit: u64,
        threads: usize,
        sieve_iterations: u32,
    ) -> (config: Option<Self>)
        ensures
            config is Some <==> (parse_pattern_spec(pattern_str@) is Some && pattern_nondecreasing(
                parse_pattern_spec(pattern_str@)->0,
            )),
            config matches Some(c) ==> c.pattern@ == parse_pattern_spec(pattern_str@)->0
                && c.half_pattern@ == half_pattern_spec(c.pattern@) && c.digits == digits && c.m
                == m && c.o == o && c.prime_table_limit == prime_table_limit && c.threads
                == threads && c.sieve_iterations == sieve_iterations,
    {
        let parsed = Self::parse_pattern(pattern_str);
        match parsed {
            None => None,
            Some(pattern) => {
                let mut k: usize = 1;
                while k < pattern.len()
                    invariant
                        1 <= k,
                        pattern@.len() >= 1 ==> k <= pattern@.len(),
                        parse_pattern_spec(pattern_str@) == Some(pattern@),
                        forall|j: int| 1 <= j < k ==> pattern@[j - 1] <= #[trigger] pattern@[j],
                    decreases pattern@.len() - k,
                {
                    if pattern[k] < pattern[k - 1] {
                        proof {
                            assert(parse_pattern_spec(pattern_str@) == Some(pattern@));
                            assert(!(pattern@[k - 1] <= pattern@[k as int]));
                        }
                        return None;
                    }
                    k = k + 1;
                }
                Some(
                    Self::new(
                        digits,
                        pattern_str,
                        m,
                        o,
                        prime_table_limit,
                        threads,
                        sieve_iterations,
                    ),
                )
            },
        }
    }
}

} // verus!
