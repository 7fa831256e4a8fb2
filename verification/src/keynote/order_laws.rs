//! How the slides of a written presentation are ordered when read back: the
//! written slide paths sort in slide order, before the layout master.
use crate::inspect::chars_less_from;
use crate::keynote::presentation::{insert_by_path, is_slide_path, slide_prefix, sort_by_path, template_prefix, SlideView};
use crate::keynote::write::{decimal, slide_path, zero_padded};
use crate::text::{has_prefix, has_suffix};
use vstd::prelude::*;

verus! {

/// The path of the layout master a written presentation holds.
pub open spec fn template_path() -> Seq<char> {
    "Index/TemplateSlide-1.iwa"@
}

/// Comparison skips a common stretch.
pub(crate) proof fn lemma_less_common(x: Seq<char>, y: Seq<char>, i: int, k: int)
    requires
        0 <= i <= k,
        k < x.len(),
        k < y.len(),
        forall|t: int| i <= t < k ==> x[t] == y[t],
    ensures
        chars_less_from(x, y, i) == chars_less_from(x, y, k),
    decreases k - i,
{
    if i < k {
        lemma_less_common(x, y, i + 1, k);
    }
}

/// `10` to the power `k`.
pub open spec fn pow10(k: nat) -> nat
    decreases k,
{
    if k == 0 {
        1
    } else {
        10 * pow10((k - 1) as nat)
    }
}

/// The digit character of `d`.
pub open spec fn digit(d: nat) -> char {
    ((d % 10) + 0x30) as char
}

/// The last `k` decimal digits of `n`, most significant first.
pub open spec fn digits_of(n: nat, k: nat) -> Seq<char>
    decreases k,
{
    if k == 0 {
        seq![]
    } else {
        digits_of(n / 10, (k - 1) as nat).push(digit(n % 10))
    }
}

proof fn lemma_digits_len(n: nat, k: nat)
    ensures
        digits_of(n, k).len() == k,
        forall|t: int| 0 <= t < k ==> 0x30 <= (#[trigger] digits_of(n, k)[t] as u32) <= 0x39,
    decreases k,
{
    if k > 0 {
        lemma_digits_len(n / 10, (k - 1) as nat);
        let d = digits_of(n / 10, (k - 1) as nat);
        assert forall|t: int| 0 <= t < k implies 0x30 <= (#[trigger] digits_of(n, k)[t] as u32) <= 0x39 by {
            if t < k - 1 {
                assert(digits_of(n, k)[t] == d[t]);
            }
        }
    }
}

proof fn lemma_padded_push(d: Seq<char>, c: char, k: nat)
    ensures
        zero_padded(d.push(c), k + 1) == zero_padded(d, k).push(c),
    decreases k,
{
    if d.len() >= k {
    } else {
        lemma_padded_push(d, c, (k - 1) as nat);
        assert(seq!['0'] + zero_padded(d, (k - 1) as nat).push(c) =~= (seq!['0'] + zero_padded(d, (k - 1) as nat)).push(c));
    }
}

proof fn lemma_padded_zeros(k: nat)
    ensures
        zero_padded(Seq::<char>::empty(), k) == digits_of(0, k),
    decreases k,
{
    if k > 0 {
        lemma_padded_zeros((k - 1) as nat);
        lemma_padded_push(Seq::<char>::empty(), '0', (k - 1) as nat);
        assert(Seq::<char>::empty().push('0') =~= seq!['0']);
        // Both are `k` zeros: one adds a zero in front, the other at the end.
        lemma_zeros_front((k - 1) as nat);
    }
}

proof fn lemma_zeros_front(k: nat)
    ensures
        seq!['0'] + digits_of(0, k) == digits_of(0, k).push('0'),
    decreases k,
{
    if k > 0 {
        lemma_zeros_front((k - 1) as nat);
        assert(digit(0) == '0');
        assert(seq!['0'] + digits_of(0, (k - 1) as nat).push('0') =~= (seq!['0'] + digits_of(0, (k - 1) as nat)).push('0'));
    } else {
        assert(seq!['0'] + Seq::<char>::empty() =~= Seq::<char>::empty().push('0'));
    }
}

/// A number padded to a width its digits fit is its last `width` digits.
proof fn lemma_padded_digits(m: nat, w: nat)
    requires
        decimal(m).len() <= w,
    ensures
        zero_padded(decimal(m), w) == digits_of(m, w),
    decreases m,
{
    let d = digit(m % 10);
    assert(((m % 10) + 0x30) as char == d);
    if m < 10 {
        assert(decimal(m) == seq![d]);
        assert(w >= 1);
        lemma_padded_push(Seq::<char>::empty(), d, (w - 1) as nat);
        assert(Seq::<char>::empty().push(d) =~= seq![d]);
        lemma_padded_zeros((w - 1) as nat);
        assert(m / 10 == 0);
    } else {
        assert(decimal(m) == decimal(m / 10).push(d));
        lemma_padded_push(decimal(m / 10), d, (w - 1) as nat);
        lemma_padded_digits(m / 10, (w - 1) as nat);
    }
}

/// A number is below ten to the count of its digits.
proof fn lemma_decimal_bound(m: nat)
    ensures
        m < pow10(decimal(m).len()),
        decimal(m).len() >= 1,
    decreases m,
{
    if m >= 10 {
        lemma_decimal_bound(m / 10);
        let q = m / 10;
        let l = decimal(m / 10).len();
        assert(decimal(m).len() == l + 1);
        assert(pow10(l + 1) == 10 * pow10(l));
        assert(q + 1 <= pow10(l));
        assert(m < 10 * q + 10);
        assert(10 * (q + 1) <= 10 * pow10(l));
    } else {
        assert(decimal(m).len() == 1);
        assert(pow10(1) == 10 * pow10(0));
    }
}

/// Larger numbers have at least as many digits.
proof fn lemma_decimal_monotone(a: nat, b: nat)
    requires
        a <= b,
    ensures
        decimal(a).len() <= decimal(b).len(),
    decreases b,
{
    lemma_decimal_bound(b);
    if a >= 10 {
        lemma_decimal_monotone(a / 10, b / 10);
    }
}

/// Of two numbers below `10^k`, the smaller has, at the first digit where
/// their `k` digits differ, the smaller digit.
proof fn lemma_digits_ordered(a: nat, b: nat, k: nat) -> (j: int)
    requires
        a < b < pow10(k),
    ensures
        0 <= j < k,
        forall|t: int| 0 <= t < j ==> digits_of(a, k)[t] == digits_of(b, k)[t],
        (digits_of(a, k)[j] as u32) < (digits_of(b, k)[j] as u32),
    decreases k,
{
    assert(k > 0);
    let k1 = (k - 1) as nat;
    lemma_digits_len(a / 10, k1);
    lemma_digits_len(b / 10, k1);
    if a / 10 < b / 10 {
        let j = lemma_digits_ordered(a / 10, b / 10, k1);
        assert forall|t: int| 0 <= t < j implies digits_of(a, k)[t] == digits_of(b, k)[t] by {
            assert(digits_of(a, k)[t] == digits_of(a / 10, k1)[t]);
            assert(digits_of(b, k)[t] == digits_of(b / 10, k1)[t]);
        }
        assert(digits_of(a, k)[j] == digits_of(a / 10, k1)[j]);
        assert(digits_of(b, k)[j] == digits_of(b / 10, k1)[j]);
        j
    } else {
        assert(a / 10 == b / 10);
        assert(a % 10 < b % 10);
        assert forall|t: int| 0 <= t < k1 implies digits_of(a, k)[t] == digits_of(b, k)[t] by {
            assert(digits_of(a, k)[t] == digits_of(a / 10, k1)[t]);
            assert(digits_of(b, k)[t] == digits_of(b / 10, k1)[t]);
        }
        assert(digits_of(a, k)[k1 as int] == digit(a % 10));
        assert(digits_of(b, k)[k1 as int] == digit(b % 10));
        k1 as int
    }
}

/// No text sorts before itself.
pub proof fn lemma_less_irreflexive(x: Seq<char>, i: int)
    requires
        0 <= i,
    ensures
        !chars_less_from(x, x, i),
    decreases x.len() - i,
{
    if i < x.len() {
        lemma_less_irreflexive(x, i + 1);
    }
}

/// The path of the `m`-th of `n` written slides, numbers `w` digits wide.
pub proof fn lemma_slide_path_shape(m: nat, w: nat)
    requires
        1 <= m,
        decimal(m).len() <= w,
    ensures
        slide_path(m, w) == "Index/Slide-"@ + digits_of(m, w) + ".iwa"@,
        slide_path(m, w).len() == 16 + w,
        forall|t: int| 0 <= t < 12 ==> #[trigger] slide_path(m, w)[t] == "Index/Slide-"@[t],
        forall|t: int| 0 <= t < w ==> #[trigger] slide_path(m, w)[12 + t] == digits_of(m, w)[t],
        is_slide_path(slide_path(m, w)),
        !has_prefix(slide_path(m, w), template_prefix()),
{
    reveal_strlit("Index/Slide-");
    reveal_strlit(".iwa");
    reveal_strlit("Index/TemplateSlide-");
    lemma_padded_digits(m, w);
    lemma_digits_len(m, w);
    let p = slide_path(m, w);
    assert(p.subrange(0, 12) =~= slide_prefix());
    assert(p.subrange(p.len() - 4, p.len() as int) =~= ".iwa"@);
    assert(p[6] == 'S');
    if has_prefix(p, template_prefix()) {
        assert(p.subrange(0, 20)[6] == 'T');
    }
}

/// Written slide paths sort in slide order.
pub proof fn lemma_slide_paths_ordered_w(a: nat, b: nat, w: nat)
    requires
        1 <= a,
        1 <= b,
        decimal(a).len() <= w,
        decimal(b).len() <= w,
    ensures
        chars_less_from(slide_path(a, w), slide_path(b, w), 0) == (a < b),
{
    lemma_slide_path_shape(a, w);
    lemma_slide_path_shape(b, w);
    lemma_decimal_bound(a);
    lemma_decimal_bound(b);
    lemma_pow10_monotone(decimal(a).len(), w);
    lemma_pow10_monotone(decimal(b).len(), w);
    let x = slide_path(a, w);
    let y = slide_path(b, w);
    if a == b {
        lemma_less_irreflexive(x, 0);
    } else if a < b {
        let j = lemma_digits_ordered(a, b, w);
        assert forall|t: int| 0 <= t < 12 + j implies x[t] == y[t] by {
            if t >= 12 {
                assert(x[12 + (t - 12)] == digits_of(a, w)[t - 12]);
                assert(y[12 + (t - 12)] == digits_of(b, w)[t - 12]);
            }
        }
        lemma_less_common(x, y, 0, 12 + j);
        assert(x[12 + j] == digits_of(a, w)[j]);
        assert(y[12 + j] == digits_of(b, w)[j]);
    } else {
        let j = lemma_digits_ordered(b, a, w);
        assert forall|t: int| 0 <= t < 12 + j implies x[t] == y[t] by {
            if t >= 12 {
                assert(x[12 + (t - 12)] == digits_of(a, w)[t - 12]);
                assert(y[12 + (t - 12)] == digits_of(b, w)[t - 12]);
            }
        }
        lemma_less_common(x, y, 0, 12 + j);
        assert(x[12 + j] == digits_of(a, w)[j]);
        assert(y[12 + j] == digits_of(b, w)[j]);
    }
}

proof fn lemma_pow10_monotone(i: nat, k: nat)
    requires
        i <= k,
    ensures
        pow10(i) <= pow10(k),
    decreases k,
{
    if i < k {
        lemma_pow10_monotone(i, (k - 1) as nat);
    }
}

/// Written slide paths, of any width, sort before the layout master's.
pub proof fn lemma_slide_before_template_w(a: nat, w: nat)
    requires
        1 <= a,
        decimal(a).len() <= w,
    ensures
        chars_less_from(slide_path(a, w), template_path(), 0),
{
    lemma_slide_path_shape(a, w);
    reveal_strlit("Index/Slide-");
    reveal_strlit("Index/TemplateSlide-1.iwa");
    let x = slide_path(a, w);
    let y = template_path();
    assert forall|t: int| 0 <= t < 6 implies x[t] == y[t] by {
        assert(x[t] == "Index/Slide-"@[t]);
    }
    lemma_less_common(x, y, 0, 6);
}

/// Every number up to `n` fits the width of `n`.
pub proof fn lemma_fits_width(m: nat, n: nat)
    requires
        m <= n,
    ensures
        decimal(m).len() <= decimal(n).len(),
{
    lemma_decimal_monotone(m, n);
}

/// Inserting a slide whose path sorts after those of `xs` and before that
/// of `last` puts it just before `last`.
proof fn lemma_insert_before_last(xs: Seq<SlideView>, last: SlideView, x: SlideView, j: int)
    requires
        0 <= j <= xs.len(),
        forall|i: int| j <= i < xs.len() ==> !chars_less_from(x.path, #[trigger] xs[i].path, 0),
        chars_less_from(x.path, last.path, 0),
    ensures
        insert_by_path(xs.push(last), x, j) == xs.push(x).push(last),
    decreases xs.len() - j,
{
    let ys = xs.push(last);
    if j == xs.len() {
        assert(ys[j] == last);
        assert(ys.insert(j, x) =~= xs.push(x).push(last));
    } else {
        assert(ys[j] == xs[j]);
        lemma_insert_before_last(xs, last, x, j + 1);
    }
}

/// Slides whose paths are in strictly increasing order after a first one
/// whose path sorts after all of theirs: sorting moves the first one last.
pub proof fn lemma_sort_moves_first_last(t: SlideView, ss: Seq<SlideView>)
    requires
        forall|i: int| 0 <= i < ss.len() ==> chars_less_from(#[trigger] ss[i].path, t.path, 0),
        forall|i: int, j: int| 0 <= i < j < ss.len() ==> !chars_less_from(#[trigger] ss[j].path, #[trigger] ss[i].path, 0),
    ensures
        sort_by_path(seq![t] + ss) == ss.push(t),
    decreases ss.len(),
{
    if ss.len() == 0 {
        assert(seq![t] + ss =~= seq![t]);
        assert(seq![t].drop_last() =~= Seq::<SlideView>::empty());
        assert(sort_by_path(Seq::<SlideView>::empty()) =~= Seq::<SlideView>::empty());
        assert(insert_by_path(Seq::<SlideView>::empty(), t, 0) =~= seq![t]);
        assert(ss.push(t) =~= seq![t]);
    } else {
        let init = ss.drop_last();
        let x = ss.last();
        lemma_sort_moves_first_last(t, init);
        let all = seq![t] + ss;
        assert(all.drop_last() =~= seq![t] + init);
        assert(all.last() == x);
        lemma_insert_before_last(init, t, x, 0);
        assert(init.push(x) =~= ss);
    }
}

} // verus!
