//! Patterns written out as text: each element in decimal, the elements
//! joined by a comma with optional whitespace around it.  Parsing such a
//! text gives the pattern back.
use vstd::prelude::*;

use crate::config::{
    all_digits, decimal_value, is_digit_char, is_whitespace_char, lemma_split_fields_len,
    lemma_trim_end_skip, lemma_trim_start_skip, parse_field_spec, parse_pattern_spec, parse_u64_spec, split_fields,
    strip_plus, trim_end_spec, trim_spec, trim_start_spec,
};

verus! {

/// The ASCII digit of `d` (`d < 10`).
pub open spec fn digit_char(d: nat) -> char {
    (48 + d) as char
}

/// The decimal digits of `x`, most significant first, without leading
/// zeros (`"0"` for zero): what `x.to_string()` gives.
pub open spec fn decimal_digits(x: nat) -> Seq<char>
    decreases x,
{
    if x < 10 {
        seq![digit_char(x)]
    } else {
        decimal_digits(x / 10).push(digit_char(x % 10))
    }
}

/// The fields joined by `sep`, as `join(sep)` joins them.
pub open spec fn join_with(fields: Seq<Seq<char>>, sep: Seq<char>) -> Seq<char>
    decreases fields.len(),
{
    if fields.len() == 0 {
        seq![]
    } else if fields.len() == 1 {
        fields[0]
    } else {
        join_with(fields.drop_last(), sep) + sep + fields.last()
    }
}

/// The pattern `v` written in decimal, its elements joined by `sep`.
pub open spec fn pattern_text(v: Seq<u64>, sep: Seq<char>) -> Seq<char> {
    join_with(Seq::new(v.len(), |k: int| decimal_digits(v[k] as nat)), sep)
}

/// Every character of `w` is whitespace.
pub open spec fn all_whitespace(w: Seq<char>) -> bool {
    forall|k: int| 0 <= k < w.len() ==> #[trigger] is_whitespace_char(w[k])
}

/// No character of `w` is a comma.
pub open spec fn comma_free(w: Seq<char>) -> bool {
    forall|k: int| 0 <= k < w.len() ==> #[trigger] w[k] != ','
}

proof fn lemma_decimal_digits(x: nat)
    ensures
        decimal_digits(x).len() >= 1,
        all_digits(decimal_digits(x)),
        decimal_value(decimal_digits(x)) == x,
    decreases x,
{
    let d = decimal_digits(x);
    if x < 10 {
        assert(digit_char(x) as u32 == 48 + x);
        assert(d.drop_last() =~= Seq::<char>::empty());
        assert(decimal_value(Seq::<char>::empty()) == 0);
        assert(d.last() == digit_char(x));
        assert(decimal_value(d) == decimal_value(d.drop_last()) * 10 + ((d.last() as u32) - 48) as nat);
    } else {
        lemma_decimal_digits(x / 10);
        let pre = decimal_digits(x / 10);
        assert(d.drop_last() =~= pre);
        assert(digit_char(x % 10) as u32 == 48 + x % 10);
        assert(d.last() == digit_char(x % 10));
        assert(decimal_value(d) == decimal_value(pre) * 10 + ((d.last() as u32) - 48) as nat);
        assert((x / 10) * 10 + x % 10 == x);
        assert forall|k: int| 0 <= k < d.len() implies #[trigger] is_digit_char(d[k]) by {
            if k < pre.len() {
                assert(d[k] == pre[k]);
            }
        }
    }
}

proof fn lemma_digits_plain(d: Seq<char>)
    requires
        all_digits(d),
    ensures
        comma_free(d),
        forall|k: int| 0 <= k < d.len() ==> !#[trigger] is_whitespace_char(d[k]),
        d.len() > 0 ==> d[0] != '+',
{
    assert forall|k: int| 0 <= k < d.len() implies #[trigger] d[k] != ',' by {
        assert(is_digit_char(d[k]));
    }
    assert forall|k: int| 0 <= k < d.len() implies !#[trigger] is_whitespace_char(d[k]) by {
        assert(is_digit_char(d[k]));
    }
    if d.len() > 0 {
        assert(is_digit_char(d[0]));
    }
}

/// Appending text without a comma extends the last field.
proof fn lemma_split_append_plain(a: Seq<char>, b: Seq<char>)
    requires
        comma_free(b),
    ensures
        split_fields(a + b) == split_fields(a).update(
            split_fields(a).len() - 1,
            split_fields(a).last() + b,
        ),
    decreases b.len(),
{
    lemma_split_fields_len(a);
    if b.len() == 0 {
        assert(a + b =~= a);
        assert(split_fields(a).last() + b =~= split_fields(a).last());
        assert(split_fields(a).update(split_fields(a).len() - 1, split_fields(a).last() + b)
            =~= split_fields(a));
    } else {
        let b0 = b.drop_last();
        assert forall|k: int| 0 <= k < b0.len() implies #[trigger] b0[k] != ',' by {
            assert(b0[k] == b[k]);
        }
        lemma_split_append_plain(a, b0);
        assert((a + b).drop_last() =~= a + b0);
        assert((a + b).last() == b.last());
        assert(b.last() != ',');
        let prev = split_fields(a + b0);
        assert(prev.last() =~= split_fields(a).last() + b0);
        assert(prev.last().push(b.last()) =~= split_fields(a).last() + b);
        assert(split_fields(a + b) =~= prev.update(prev.len() - 1, prev.last().push(b.last())));
        assert(split_fields(a + b) =~= split_fields(a).update(
            split_fields(a).len() - 1,
            split_fields(a).last() + b,
        ));
    }
}

/// The field `k` of the joined text: the whitespace after the previous
/// comma, the element, the whitespace before the next comma.
pub open spec fn joined_field(fields: Seq<Seq<char>>, lead: Seq<char>, trail: Seq<char>, k: int) -> Seq<
    char,
> {
    (if k > 0 {
        trail
    } else {
        Seq::<char>::empty()
    }) + fields[k] + (if k < fields.len() - 1 {
        lead
    } else {
        Seq::<char>::empty()
    })
}

proof fn lemma_split_join(fields: Seq<Seq<char>>, lead: Seq<char>, trail: Seq<char>)
    requires
        fields.len() >= 1,
        forall|k: int| 0 <= k < fields.len() ==> comma_free(#[trigger] fields[k]),
        comma_free(lead),
        comma_free(trail),
    ensures
        split_fields(join_with(fields, lead + seq![','] + trail)).len() == fields.len(),
        forall|k: int|
            0 <= k < fields.len() ==> #[trigger] split_fields(join_with(fields, lead + seq![',']
                + trail))[k] == joined_field(fields, lead, trail, k),
    decreases fields.len(),
{
    let sep = lead + seq![','] + trail;
    let n = fields.len();
    if n == 1 {
        lemma_split_append_plain(Seq::<char>::empty(), fields[0]);
        assert(Seq::<char>::empty() + fields[0] =~= fields[0]);
        assert(joined_field(fields, lead, trail, 0) =~= fields[0]);
    } else {
        let pre = fields.drop_last();
        assert forall|k: int| 0 <= k < pre.len() implies comma_free(#[trigger] pre[k]) by {
            assert(pre[k] == fields[k]);
        }
        lemma_split_join(pre, lead, trail);
        let j0 = join_with(pre, sep);
        let last = fields.last();
        assert(comma_free(last));
        let tail = trail + last;
        assert forall|k: int| 0 <= k < tail.len() implies #[trigger] tail[k] != ',' by {
            if k < trail.len() {
                assert(tail[k] == trail[k]);
            } else {
                assert(tail[k] == last[k - trail.len()]);
            }
        }
        assert(join_with(fields, sep) =~= (j0 + lead).push(',') + tail);
        lemma_split_fields_len(j0);
        lemma_split_append_plain(j0, lead);
        let s1 = split_fields(j0 + lead);
        assert((j0 + lead).push(',').drop_last() =~= j0 + lead);
        let s2 = split_fields((j0 + lead).push(','));
        assert(s2 =~= s1.push(Seq::<char>::empty()));
        lemma_split_append_plain((j0 + lead).push(','), tail);
        let s3 = split_fields(join_with(fields, sep));
        assert(s3 =~= s2.update(s2.len() - 1, s2.last() + tail));
        assert forall|k: int| 0 <= k < n implies #[trigger] s3[k] == joined_field(
            fields,
            lead,
            trail,
            k,
        ) by {
            if k < n - 2 {
                assert(s3[k] == split_fields(j0)[k]);
                assert(pre[k] == fields[k]);
                assert(joined_field(pre, lead, trail, k) =~= joined_field(fields, lead, trail, k));
            } else if k == n - 2 {
                assert(s3[k] == split_fields(j0)[k] + lead);
                assert(pre[k] == fields[k]);
                assert(joined_field(pre, lead, trail, k) + lead =~= joined_field(
                    fields,
                    lead,
                    trail,
                    k,
                ));
            } else {
                assert(s3[k] =~= Seq::<char>::empty() + tail);
                assert(joined_field(fields, lead, trail, k) =~= tail);
            }
        }
    }
}

proof fn lemma_trim_padded(w1: Seq<char>, d: Seq<char>, w2: Seq<char>)
    requires
        all_whitespace(w1),
        all_whitespace(w2),
        d.len() >= 1,
        !is_whitespace_char(d[0]),
        !is_whitespace_char(d.last()),
    ensures
        trim_spec(w1 + d + w2) == d,
{
    let f = w1 + d + w2;
    assert forall|k: int| 0 <= k < w1.len() implies #[trigger] is_whitespace_char(f[k]) by {
        assert(f[k] == w1[k]);
    }
    lemma_trim_start_skip(f, w1.len() as int);
    let g = f.subrange(w1.len() as int, f.len() as int);
    assert(g =~= d + w2);
    assert(g[0] == d[0]);
    assert(trim_start_spec(g) == g);
    assert forall|k: int| d.len() <= k < g.len() implies #[trigger] is_whitespace_char(g[k]) by {
        assert(g[k] == w2[k - d.len()]);
    }
    lemma_trim_end_skip(g, d.len() as int);
    assert(g.take(d.len() as int) =~= d);
    assert(d.last() == d[d.len() - 1]);
    assert(trim_end_spec(d) == d);
}

/// Parsing a pattern written out in decimal, its elements joined by a comma
/// with any whitespace before and after it (`"0, 4, 6"`, `"0,4,6"`), gives
/// the pattern back.
pub proof fn lemma_parse_pattern_text(v: Seq<u64>, lead: Seq<char>, trail: Seq<char>)
    requires
        v.len() >= 1,
        all_whitespace(lead),
        all_whitespace(trail),
    ensures
        parse_pattern_spec(pattern_text(v, lead + seq![','] + trail)) == Some(v),
{
    let fields = Seq::new(v.len(), |k: int| decimal_digits(v[k] as nat));
    let s = pattern_text(v, lead + seq![','] + trail);
    assert forall|k: int| 0 <= k < lead.len() implies #[trigger] lead[k] != ',' by {
        assert(is_whitespace_char(lead[k]));
    }
    assert forall|k: int| 0 <= k < trail.len() implies #[trigger] trail[k] != ',' by {
        assert(is_whitespace_char(trail[k]));
    }
    assert forall|k: int| 0 <= k < fields.len() implies comma_free(#[trigger] fields[k]) by {
        lemma_decimal_digits(v[k] as nat);
        lemma_digits_plain(fields[k]);
    }
    lemma_split_join(fields, lead, trail);
    let parts = split_fields(s);
    assert forall|k: int| 0 <= k < parts.len() implies #[trigger] parse_field_spec(parts[k]) == Some(
        v[k],
    ) by {
        let d = fields[k];
        lemma_decimal_digits(v[k] as nat);
        lemma_digits_plain(d);
        let w1 = if k > 0 {
            trail
        } else {
            Seq::<char>::empty()
        };
        let w2 = if k < fields.len() - 1 {
            lead
        } else {
            Seq::<char>::empty()
        };
        assert(parts[k] == w1 + d + w2);
        assert(!is_whitespace_char(d[d.len() - 1]));
        lemma_trim_padded(w1, d, w2);
        assert(strip_plus(d) == d);
        assert(parse_u64_spec(d) == Some(v[k]));
    }
    assert(parse_pattern_spec(s) is Some);
    assert(parse_pattern_spec(s)->0 =~= v);
}

} // verus!
