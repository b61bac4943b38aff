//! d3's `formatGroup`: a substring walk over UTF-16 code units from the right,
//! cycling through the group sizes, with an optional width budget for zero fill.
use vstd::prelude::*;

use crate::limits::FormatError;
use crate::text::{decode_utf16, decode_utf16_lossy, encode_utf16, push_utf16, utf16_len};

verus! {

pub open spec fn pos(i: int) -> nat {
    if i > 0 {
        i as nat
    } else {
        0
    }
}

/// How many units the next group takes: its size, or what is left of the budget
/// (at least one) when the size would overrun it.
pub open spec fn step_size(size: int, length: int, width: Option<int>) -> int {
    match width {
        Some(b) => if length + size + 1 > b {
            if b - length > 1 {
                b - length
            } else {
                1
            }
        } else {
            size
        },
        None => size,
    }
}

/// The spans `formatGroup` cuts, in the order it cuts them (rightmost first).
///
/// `index` is where the next group ends, `cursor` which size is in use, `size`
/// that size and `length` the units (separators included) already emitted.
pub open spec fn group_spans(
    index: int,
    cursor: int,
    size: int,
    length: int,
    sizes: Seq<u32>,
    width: Option<int>,
) -> Seq<(int, int)>
    decreases pos(index),
{
    if index > 0 && size > 0 && sizes.len() > 0 {
        let g = step_size(size, length, width);
        let start = index - g;
        let span = (if start > 0 {
            start
        } else {
            0
        }, index);
        let next = length + g + 1;
        if width matches Some(b) && next > b {
            seq![span]
        } else {
            let c = (cursor + 1) % (sizes.len() as int);
            seq![span] + group_spans(start, c, sizes[c] as int, next, sizes, width)
        }
    } else {
        Seq::<(int, int)>::empty()
    }
}

/// The spans joined leftmost first, with `sep` between them.
pub open spec fn join_rev(units: Seq<u16>, spans: Seq<(int, int)>, sep: Seq<u16>) -> Seq<u16>
    decreases spans.len(),
{
    if spans.len() == 0 {
        Seq::<u16>::empty()
    } else if spans.len() == 1 {
        units.subrange(spans[0].0, spans[0].1)
    } else {
        join_rev(units, spans.skip(1), sep) + sep + units.subrange(spans[0].0, spans[0].1)
    }
}

/// The units the spans cover, added up.
pub open spec fn span_total(spans: Seq<(int, int)>) -> int
    decreases spans.len(),
{
    if spans.len() == 0 {
        0
    } else {
        span_total(spans.drop_last()) + (spans.last().1 - spans.last().0)
    }
}

pub open spec fn first_size(sizes: Seq<u32>) -> int {
    if sizes.len() > 0 {
        sizes[0] as int
    } else {
        0
    }
}

/// The spans for the whole of a value of `n` units.
pub open spec fn all_spans(n: int, sizes: Seq<u32>, width: Option<int>) -> Seq<(int, int)> {
    group_spans(n, 0, first_size(sizes), 0, sizes, width)
}

/// What grouping `units` yields: the joined text, or the limit it breaks.
pub open spec fn spec_group(
    units: Seq<u16>,
    sizes: Seq<u32>,
    thousands: Seq<char>,
    width: Option<int>,
    max: usize,
) -> Result<Seq<char>, FormatError> {
    let spans = all_spans(units.len() as int, sizes, width);
    let seps: int = if spans.len() > 0 {
        spans.len() - 1
    } else {
        0
    };
    let total = span_total(spans) + seps * utf16_len(thousands);
    if total > usize::MAX {
        Err(FormatError::AllocationFailed)
    } else if total > max {
        Err(FormatError::OutputLimit { requested: total as usize, maximum: max })
    } else {
        Ok(decode_utf16(join_rev(units, spans, encode_utf16(thousands))))
    }
}

/// Grouping refuses only for a size over the budget, and names the budget.
pub proof fn lemma_group_within_budget(
    units: Seq<u16>,
    sizes: Seq<u32>,
    thousands: Seq<char>,
    width: Option<int>,
    max: usize,
)
    ensures
        spec_group(units, sizes, thousands, width, max) matches Err(
            FormatError::OutputLimit { requested, maximum },
        ) ==> maximum == max && requested > max,
{
}

/// Grouping never falls short: with a separator of at least one unit, the groups
/// cut from the `index` units left of a value, joined, are at least as long as
/// those units, or reach the budget less the `length` already emitted.
pub proof fn lemma_group_spans_reach(
    units: Seq<u16>,
    sep: Seq<u16>,
    index: int,
    cursor: int,
    size: int,
    length: int,
    sizes: Seq<u32>,
    width: Option<int>,
)
    requires
        0 < index <= units.len(),
        size > 0,
        sizes.len() > 0,
        forall|k: int| 0 <= k < sizes.len() ==> sizes[k] > 0,
        sep.len() >= 1,
    ensures
        join_rev(units, group_spans(index, cursor, size, length, sizes, width), sep).len() >= index
            || (width is Some && join_rev(
            units,
            group_spans(index, cursor, size, length, sizes, width),
            sep,
        ).len() >= width.unwrap() - length),
    decreases index,
{
    let g = step_size(size, length, width);
    let start = index - g;
    let span = (if start > 0 {
        start
    } else {
        0
    }, index);
    let next = length + g + 1;
    let r = group_spans(index, cursor, size, length, sizes, width);
    assert(g >= 1);
    if width is Some && next > width.unwrap() {
        assert(r =~= seq![span]);
        assert(join_rev(units, r, sep) == units.subrange(span.0, span.1));
    } else {
        let c = (cursor + 1) % (sizes.len() as int);
        let rest = group_spans(start, c, sizes[c] as int, next, sizes, width);
        assert(r == seq![span] + rest);
        if start > 0 {
            lemma_group_spans_reach(units, sep, start, c, sizes[c] as int, next, sizes, width);
            assert(rest.len() > 0);
            assert(r.skip(1) =~= rest);
            assert(join_rev(units, r, sep) == join_rev(units, rest, sep) + sep + units.subrange(
                span.0,
                span.1,
            ));
        } else {
            assert(rest.len() == 0);
            assert(r =~= seq![span]);
            assert(join_rev(units, r, sep) == units.subrange(span.0, span.1));
        }
    }
}

spec fn spans_view(v: Seq<(usize, usize)>) -> Seq<(int, int)> {
    Seq::new(v.len(), |i: int| (v[i].0 as int, v[i].1 as int))
}

proof fn lemma_spans_bounded(index: int, cursor: int, size: int, length: int, sizes: Seq<u32>, width: Option<int>, n: int)
    requires
        index <= n,
    ensures
        forall|i: int| 0 <= i < group_spans(index, cursor, size, length, sizes, width).len()
            ==> {
            let sp = #[trigger] group_spans(index, cursor, size, length, sizes, width)[i];
            0 <= sp.0 <= sp.1 <= n
        },
        group_spans(index, cursor, size, length, sizes, width).len() <= pos(index),
    decreases pos(index),
{
    if index > 0 && size > 0 && sizes.len() > 0 {
        let g = step_size(size, length, width);
        let start = index - g;
        let next = length + g + 1;
        if width matches Some(b) && next > b {
        } else {
            let c = (cursor + 1) % (sizes.len() as int);
            lemma_spans_bounded(start, c, sizes[c] as int, next, sizes, width, n);
            let rest = group_spans(start, c, sizes[c] as int, next, sizes, width);
            let all = group_spans(index, cursor, size, length, sizes, width);
            assert forall|i: int| 0 <= i < all.len() implies {
                let sp = #[trigger] all[i];
                0 <= sp.0 <= sp.1 <= n
            } by {
                if i > 0 {
                    assert(all[i] == rest[i - 1]);
                }
            }
        }
    }
}

proof fn lemma_span_total_push(spans: Seq<(int, int)>, sp: (int, int))
    ensures
        span_total(spans.push(sp)) == span_total(spans) + (sp.1 - sp.0),
{
    assert(spans.push(sp).drop_last() =~= spans);
}

proof fn lemma_span_total_bounds(spans: Seq<(int, int)>, k: int, n: int)
    requires
        0 <= k <= spans.len(),
        forall|i: int| 0 <= i < spans.len() ==> 0 <= #[trigger] spans[i].0 <= spans[i].1 <= n,
    ensures
        0 <= span_total(spans.take(k)) <= span_total(spans),
    decreases spans.len() - k,
{
    if k < spans.len() {
        lemma_span_total_bounds(spans, k + 1, n);
        assert(spans.take(k + 1).drop_last() =~= spans.take(k));
    } else {
        assert(spans.take(k) =~= spans);
    }
    lemma_span_total_nonneg(spans.take(k), n);
}

proof fn lemma_span_total_nonneg(spans: Seq<(int, int)>, n: int)
    requires
        forall|i: int| 0 <= i < spans.len() ==> 0 <= #[trigger] spans[i].0 <= spans[i].1 <= n,
    ensures
        0 <= span_total(spans),
    decreases spans.len(),
{
    if spans.len() > 0 {
        let d = spans.drop_last();
        assert forall|i: int| 0 <= i < d.len() implies 0 <= #[trigger] d[i].0 <= d[i].1 <= n by {
            assert(d[i] == spans[i]);
        }
        lemma_span_total_nonneg(d, n);
    }
}

/// The spans `formatGroup` cuts from a value of `n` units.
fn cut_spans(n: usize, sizes: &[u32], width: Option<i128>) -> (spans: Vec<(usize, usize)>)
    requires
        width matches Some(b) ==> -0x1_0000_0000_0000_0000 <= b <= 0x8000_0000_0000_0000,
    ensures
        spans_view(spans@) == all_spans(n as int, sizes@, match width {
            Some(b) => Some(b as int),
            None => None,
        }),
{
    let ghost w: Option<int> = match width {
        Some(b) => Some(b as int),
        None => None,
    };
    let mut spans: Vec<(usize, usize)> = Vec::new();
    let mut index: i128 = n as i128;
    let mut cursor: usize = 0;
    let mut size: i128 = if sizes.len() > 0 {
        sizes[0] as i128
    } else {
        0
    };
    let mut length: i128 = 0;
    let ghost whole = all_spans(n as int, sizes@, w);
    let mut done = false;
    assert(spans_view(spans@) + group_spans(index as int, cursor as int, size as int, length as int, sizes@, w) =~= whole);
    while !done && index > 0 && size > 0
        invariant
            index <= n,
            0 <= size <= u32::MAX,
            sizes@.len() > 0 ==> cursor < sizes@.len(),
            sizes@.len() == 0 ==> size == 0,
            length == (n - index) + spans@.len(),
            index >= -0x2_0000_0000_0000_0000,
            spans@.len() + pos(index as int) <= n,
            width matches Some(b) ==> -0x1_0000_0000_0000_0000 <= b <= 0x8000_0000_0000_0000,
            w == (match width {
                Some(b) => Some(b as int),
                None => None,
            }),
            done ==> spans_view(spans@) == whole,
            !done ==> spans_view(spans@) + group_spans(index as int, cursor as int, size as int, length as int, sizes@, w) == whole,
        decreases pos(index as int), if done { 0int } else { 1int },
    {
        let ghost before = spans_view(spans@);
        let ghost rest = group_spans(index as int, cursor as int, size as int, length as int, sizes@, w);
        let mut g = size;
        if let Some(budget) = width {
            if length + size + 1 > budget {
                g = if budget - length > 1 {
                    budget - length
                } else {
                    1
                };
            }
        }
        assert(g == step_size(size as int, length as int, w));
        assert(1 <= g <= 0x2_0000_0000_0000_0000);
        let end = index as usize;
        index = index - g;
        let start: usize = if index > 0 {
            index as usize
        } else {
            0
        };
        spans.push((start, end));
        length = length + g + 1;
        let over = match width {
            Some(budget) => length > budget,
            None => false,
        };
        assert(spans_view(spans@) =~= before.push((start as int, end as int)));
        if over {
            assert(rest =~= seq![(start as int, end as int)]);
            done = true;
        } else {
            let ghost old_cursor = cursor as int;
            assert(sizes@.len() > 0);
            cursor = if cursor < sizes.len() - 1 {
                cursor + 1
            } else {
                0
            };
            assert(cursor == (old_cursor + 1) % (sizes@.len() as int)) by (nonlinear_arith)
                requires
                    0 <= old_cursor < sizes@.len(),
                    old_cursor + 1 < sizes@.len() ==> cursor == old_cursor + 1,
                    old_cursor + 1 >= sizes@.len() ==> cursor == 0,
            ;
            size = sizes[cursor] as i128;
            assert(rest =~= seq![(start as int, end as int)] + group_spans(index as int, cursor as int, size as int, length as int, sizes@, w));
            assert(spans_view(spans@) + group_spans(index as int, cursor as int, size as int, length as int, sizes@, w) =~= before + rest);
        }
    }
    if !done {
        assert(group_spans(index as int, cursor as int, size as int, length as int, sizes@, w) =~= Seq::<(int, int)>::empty());
    }
    assert(spans_view(spans@) =~= whole);
    spans
}

/// Groups `units`, joining the groups with `thousands` and refusing a result over
/// `max` bytes.
pub fn group_units(
    units: &Vec<u16>,
    sizes: &[u32],
    thousands: &Vec<char>,
    width: Option<i128>,
    max: usize,
) -> (r: Result<Vec<char>, FormatError>)
    requires
        width matches Some(b) ==> -0x1_0000_0000_0000_0000 <= b <= 0x8000_0000_0000_0000,
    ensures
        match r {
            Ok(v) => spec_group(units@, sizes@, thousands@, match width {
                Some(b) => Some(b as int),
                None => None,
            }, max) == Ok::<Seq<char>, FormatError>(v@),
            Err(e) => spec_group(units@, sizes@, thousands@, match width {
                Some(b) => Some(b as int),
                None => None,
            }, max) == Err::<Seq<char>, FormatError>(e),
        },
{
    let ghost w: Option<int> = match width {
        Some(b) => Some(b as int),
        None => None,
    };
    let spans = cut_spans(units.len(), sizes, width);
    let ghost sv = spans_view(spans@);
    proof {
        lemma_spans_bounded(units@.len() as int, 0, first_size(sizes@), 0, sizes@, w, units@.len() as int);
    }
    let mut total: u128 = 0;
    let k = spans.len();
    let n = units.len();
    assert(k <= n);
    let mut i: usize = 0;
    while i < k
        invariant
            i <= k,
            k <= n,
            n == units@.len(),
            k == spans@.len(),
            sv == spans_view(spans@),
            sv == all_spans(units@.len() as int, sizes@, w),
            forall|j: int| 0 <= j < sv.len() ==> 0 <= #[trigger] sv[j].0 <= sv[j].1 <= units@.len(),
            total == span_total(sv.take(i as int)),
            total <= i * n,
        decreases k - i,
    {
        let (a, b) = spans[i];
        assert(sv[i as int] == (a as int, b as int));
        proof {
            assert(sv.take(i + 1) =~= sv.take(i as int).push(sv[i as int]));
            lemma_span_total_push(sv.take(i as int), sv[i as int]);
            assert(i * n + n == (i + 1) * n && (i + 1) * n <= n * n && n * n <= 0xFFFF_FFFF_FFFF_FFFF * 0xFFFF_FFFF_FFFF_FFFF) by (nonlinear_arith)
                requires
                    i < k <= n,
                    n <= 0xFFFF_FFFF_FFFF_FFFF,
            ;
        }
        total = total + ((b - a) as u128);
        i = i + 1;
    }
    assert(sv.take(k as int) =~= sv);
    let mut sep_len: u128 = 0;
    let tn = thousands.len();
    let mut j: usize = 0;
    while j < tn
        invariant
            j <= tn,
            tn == thousands@.len(),
            sep_len == utf16_len(thousands@.take(j as int)),
            sep_len <= 2 * j,
        decreases tn - j,
    {
        let c = thousands[j];
        proof {
            assert(thousands@.take(j + 1).drop_last() =~= thousands@.take(j as int));
        }
        sep_len = sep_len + if (c as u32) > 0xFFFF {
            2
        } else {
            1
        };
        j = j + 1;
    }
    assert(thousands@.take(tn as int) =~= thousands@);
    let seps: u128 = if k > 0 {
        (k - 1) as u128
    } else {
        0
    };
    let all: u128 = match seps.checked_mul(sep_len) {
        Some(p) => match total.checked_add(p) {
            Some(t) => t,
            None => {
                return Err(FormatError::AllocationFailed);
            },
        },
        None => {
            proof {
                assert(total + seps * sep_len >= seps * sep_len);
            }
            return Err(FormatError::AllocationFailed);
        },
    };
    if all > (usize::MAX as u128) {
        return Err(FormatError::AllocationFailed);
    }
    if all > (max as u128) {
        return Err(FormatError::OutputLimit { requested: all as usize, maximum: max });
    }
    let mut sep_units: Vec<u16> = Vec::new();
    push_utf16(&mut sep_units, thousands);
    let mut joined: Vec<u16> = Vec::new();
    let mut m: usize = k;
    assert(sv.skip(k as int) =~= Seq::<(int, int)>::empty());
    while m > 0
        invariant
            m <= k,
            k == spans@.len(),
            sv == spans_view(spans@),
            forall|x: int| 0 <= x < sv.len() ==> 0 <= #[trigger] sv[x].0 <= sv[x].1 <= units@.len(),
            sep_units@ == encode_utf16(thousands@),
            joined@ == join_rev(units@, sv.skip(m as int), sep_units@),
        decreases m,
    {
        m = m - 1;
        let (a, b) = spans[m];
        assert(sv[m as int] == (a as int, b as int));
        let ghost prev = joined@;
        if m + 1 < k {
            let mut x: usize = 0;
            let sn = sep_units.len();
            while x < sn
                invariant
                    x <= sn,
                    sn == sep_units@.len(),
                    joined@ == prev + sep_units@.take(x as int),
                decreases sn - x,
            {
                joined.push(sep_units[x]);
                assert(sep_units@.take(x + 1) =~= sep_units@.take(x as int).push(sep_units@[x as int]));
                x = x + 1;
            }
            assert(sep_units@.take(sn as int) =~= sep_units@);
        }
        let ghost mid = joined@;
        let mut y: usize = a;
        while y < b
            invariant
                a <= y <= b,
                b <= units@.len(),
                joined@ == mid + units@.subrange(a as int, y as int),
            decreases b - y,
        {
            joined.push(units[y]);
            assert(units@.subrange(a as int, y + 1) =~= units@.subrange(a as int, y as int).push(units@[y as int]));
            y = y + 1;
        }
        proof {
            let tail = sv.skip(m as int);
            assert(tail.skip(1) =~= sv.skip(m + 1));
            assert(tail[0] == sv[m as int]);
            if m + 1 < k {
                assert(joined@ =~= join_rev(units@, sv.skip(m + 1), sep_units@) + sep_units@ + units@.subrange(a as int, b as int));
            } else {
                assert(prev =~= Seq::<u16>::empty());
                assert(joined@ =~= units@.subrange(a as int, b as int));
            }
        }
    }
    assert(sv.skip(0) =~= sv);
    let out = decode_utf16_lossy(&joined);
    assert(sv == all_spans(units@.len() as int, sizes@, w));
    assert(all == span_total(sv) + seps * utf16_len(thousands@));
    assert(!(span_total(sv) + seps * utf16_len(thousands@) > usize::MAX));
    assert(!(span_total(sv) + seps * utf16_len(thousands@) > max));
    assert(out@ == decode_utf16(join_rev(units@, sv, encode_utf16(thousands@))));
    Ok(out)
}

} // verus!
