//! The final tidy-up of rendered text: consecutive whole-measure rests,
//! written on lines of their own, are merged into one.

use vstd::prelude::*;

use crate::numtext::{decimal, lemma_parse_u32_decimal, parse_u32, parse_u32_at, push_decimal};

verus! {

/// `line` without one trailing carriage return.
pub open spec fn strip_cr(line: Seq<char>) -> Seq<char> {
    if line.len() > 0 && line.last() == '\r' { line.drop_last() } else { line }
}

/// The lines of `text[i..]` as the standard library splits text into lines,
/// given the line `cur` read so far and the lines `acc` before it: each line
/// ends at a `\n` (dropping a `\r` just before it); a last line without `\n`
/// counts only when it is not empty.
pub open spec fn lines_from(text: Seq<char>, i: int, cur: Seq<char>, acc: Seq<Seq<char>>) -> Seq<Seq<char>>
    decreases text.len() - i,
{
    if i >= text.len() {
        if cur.len() > 0 { acc.push(cur) } else { acc }
    } else if text[i] == '\n' {
        lines_from(text, i + 1, Seq::empty(), acc.push(strip_cr(cur)))
    } else {
        lines_from(text, i + 1, cur.push(text[i]), acc)
    }
}

/// The lines of `text` as the standard library splits text into lines.
pub open spec fn lines(text: Seq<char>) -> Seq<Seq<char>> {
    lines_from(text, 0, Seq::empty(), Seq::empty())
}

/// The bed character that starts a whole-measure rest.
pub open spec fn bed() -> char {
    '\u{1F6CF}'
}

/// The length of a whole-measure rest line: a bed followed by a number.
#[verifier::opaque]
pub open spec fn long_rest(line: Seq<char>) -> Option<u32> {
    if line.len() > 0 && line[0] == bed() { parse_u32(line.drop_first()) } else { None }
}

/// Working from line `i` down to line 1, each line that is a whole-measure
/// rest and follows another one is merged into it, their lengths added.
/// `None` when a sum does not fit a `u32`.
pub open spec fn merge_rests(ls: Seq<Seq<char>>, i: int) -> Option<Seq<Seq<char>>>
    decreases i,
{
    if i < 1 || i >= ls.len() {
        Some(ls)
    } else {
        match (long_rest(ls[i - 1]), long_rest(ls[i])) {
            (Some(a), Some(b)) => if a + b > u32::MAX {
                None
            } else {
                merge_rests(ls.remove(i).update(i - 1, seq![bed()] + decimal((a + b) as nat)), i - 1)
            },
            _ => merge_rests(ls, i - 1),
        }
    }
}

/// `ls` joined with line breaks between them.
pub open spec fn join_lines(ls: Seq<Seq<char>>) -> Seq<char>
    decreases ls.len(),
{
    if ls.len() == 0 {
        Seq::empty()
    } else if ls.len() == 1 {
        ls[0]
    } else {
        join_lines(ls.drop_last()).push('\n') + ls.last()
    }
}

/// The rendered text with runs of whole-measure rest lines merged.
pub open spec fn post_process(text: Seq<char>) -> Option<Seq<char>> {
    let ls = lines(text);
    match merge_rests(ls, ls.len() - 1) {
        Some(merged) => Some(join_lines(merged)),
        None => None,
    }
}

/// No two neighbouring lines from line `from` on are both whole-measure
/// rests.
pub open spec fn rests_apart(ls: Seq<Seq<char>>, from: int) -> bool {
    forall|j: int|
        from <= j && 0 <= j && j + 1 < ls.len() ==> !(long_rest(#[trigger] ls[j]) is Some && long_rest(ls[j + 1]) is Some)
}

/// A bed followed by the decimal text of `n` is a whole-measure rest of `n`.
pub proof fn lemma_long_rest_line(n: u32)
    ensures
        long_rest(seq![bed()] + decimal(n as nat)) == Some(n),
{
    reveal(long_rest);
    lemma_parse_u32_decimal(n);
    assert((seq![bed()] + decimal(n as nat)).drop_first() =~= decimal(n as nat));
}

/// After merging, no two neighbouring lines are both whole-measure rests.
pub proof fn lemma_merge_rests_apart(ls: Seq<Seq<char>>, i: int)
    requires
        i < ls.len(),
        rests_apart(ls, i),
        merge_rests(ls, i) is Some,
    ensures
        rests_apart(merge_rests(ls, i)->0, 0),
    decreases i,
{
    if i < 1 {
    } else {
        match (long_rest(ls[i - 1]), long_rest(ls[i])) {
            (Some(a), Some(b)) => {
                let merged = seq![bed()] + decimal((a + b) as nat);
                let next = ls.remove(i).update(i - 1, merged);
                lemma_long_rest_line((a + b) as u32);
                assert forall|j: int|
                    i - 1 <= j && 0 <= j && j + 1 < next.len() implies !(long_rest(#[trigger] next[j]) is Some
                    && long_rest(next[j + 1]) is Some) by {
                    if j == i - 1 {
                        assert(next[j + 1] == ls[i + 1]);
                    } else {
                        assert(next[j] == ls[j + 1]);
                        assert(next[j + 1] == ls[j + 2]);
                    }
                }
                lemma_merge_rests_apart(next, i - 1);
            },
            _ => {
                lemma_merge_rests_apart(ls, i - 1);
            },
        }
    }
}

/// The merging never leaves two whole-measure rest lines next to each other.
pub proof fn lemma_post_process_rests_apart(text: Seq<char>)
    requires
        post_process(text) is Some,
    ensures
        rests_apart(merge_rests(lines(text), lines(text).len() - 1)->0, 0),
{
    let ls = lines(text);
    lemma_merge_rests_apart(ls, ls.len() - 1);
}

/// The lines of `text` as the standard library splits text into lines.
pub fn split_lines(text: &Vec<char>) -> (ls: Vec<Vec<char>>)
    ensures
        ls@.map_values(|l: Vec<char>| l@) == lines(text@),
{
    let mut acc: Vec<Vec<char>> = Vec::new();
    let mut cur: Vec<char> = Vec::new();
    let mut i: usize = 0;
    assert(acc@.map_values(|l: Vec<char>| l@) =~= Seq::<Seq<char>>::empty());
    assert(cur@ =~= Seq::<char>::empty());
    while i < text.len()
        invariant
            i <= text@.len(),
            lines_from(text@, i as int, cur@, acc@.map_values(|l: Vec<char>| l@)) == lines(text@),
        decreases text@.len() - i,
    {
        let ghost before = acc@.map_values(|l: Vec<char>| l@);
        if text[i] == '\n' {
            let mut line = cur;
            let ghost line0 = line@;
            if line.len() > 0 && line[line.len() - 1] == '\r' {
                line.pop();
            }
            assert(line@ == strip_cr(line0));
            acc.push(line);
            cur = Vec::new();
            assert(acc@.map_values(|l: Vec<char>| l@) =~= before.push(strip_cr(line0)));
            assert(cur@ =~= Seq::<char>::empty());
        } else {
            cur.push(text[i]);
        }
        i = i + 1;
    }
    if cur.len() > 0 {
        let ghost before = acc@.map_values(|l: Vec<char>| l@);
        acc.push(cur);
        assert(acc@.map_values(|l: Vec<char>| l@) =~= before.push(cur@));
    }
    acc
}

/// The length of a whole-measure rest line, if `line` is one.
pub fn line_long_rest(line: &Vec<char>) -> (r: Option<u32>)
    ensures
        r == long_rest(line@),
{
    proof { reveal(long_rest); }
    if line.len() > 0 && line[0] == '\u{1F6CF}' {
        assert(line@.subrange(1, line@.len() as int) =~= line@.drop_first());
        parse_u32_at(line, 1, line.len())
    } else {
        None
    }
}

/// `ls` joined with line breaks between them.
pub fn join_all(ls: &Vec<Vec<char>>) -> (text: Vec<char>)
    ensures
        text@ == join_lines(ls@.map_values(|l: Vec<char>| l@)),
{
    let ghost all = ls@.map_values(|l: Vec<char>| l@);
    let mut out: Vec<char> = Vec::new();
    let mut i: usize = 0;
    assert(all.take(0) =~= Seq::<Seq<char>>::empty());
    assert(out@ =~= join_lines(all.take(0)));
    while i < ls.len()
        invariant
            i <= ls@.len(),
            all == ls@.map_values(|l: Vec<char>| l@),
            out@ == join_lines(all.take(i as int)),
        decreases ls@.len() - i,
    {
        assert(all.take(i as int + 1).drop_last() =~= all.take(i as int));
        assert(all.take(i as int + 1).last() == ls@[i as int]@);
        if i > 0 {
            out.push('\n');
        } else {
            assert(all.take(1) =~= seq![ls@[0]@]);
        }
        let line = &ls[i];
        let mut j: usize = 0;
        let ghost start = out@;
        while j < line.len()
            invariant
                j <= line@.len(),
                out@ == start + line@.take(j as int),
            decreases line@.len() - j,
        {
            out.push(line[j]);
            j = j + 1;
            assert(out@ =~= start + line@.take(j as int));
        }
        assert(line@.take(j as int) =~= line@);
        i = i + 1;
    }
    assert(all.take(i as int) =~= all);
    out
}

/// The rendered text with runs of whole-measure rest lines merged (see
/// [`post_process`]); `None` when a merged length does not fit a `u32`.
pub fn merge_rest_lines(text: &Vec<char>) -> (r: Option<Vec<char>>)
    ensures
        r matches Some(t) ==> post_process(text@) == Some(t@),
        r is None ==> post_process(text@) is None,
{
    let mut ls = split_lines(text);
    let ghost all = lines(text@);
    if ls.len() == 0 {
        return Some(join_all(&ls));
    }
    let mut i: usize = ls.len() - 1;
    while i >= 1
        invariant
            i < ls@.len(),
            all == lines(text@),
            merge_rests(ls@.map_values(|l: Vec<char>| l@), i as int) == merge_rests(all, all.len() - 1),
        decreases i,
    {
        let ghost cur = ls@.map_values(|l: Vec<char>| l@);
        assert(cur[i as int - 1] == ls@[i as int - 1]@);
        assert(cur[i as int] == ls@[i as int]@);
        let a = line_long_rest(&ls[i - 1]);
        let b = line_long_rest(&ls[i]);
        match (a, b) {
            (Some(a), Some(b)) => {
                if a > u32::MAX - b {
                    assert(merge_rests(cur, i as int) is None);
                    return None;
                }
                let mut merged: Vec<char> = Vec::new();
                merged.push('\u{1F6CF}');
                push_decimal(&mut merged, a + b);
                ls.remove(i);
                ls.set(i - 1, merged);
                assert(ls@.map_values(|l: Vec<char>| l@) =~= cur.remove(i as int).update(
                    i as int - 1,
                    seq![bed()] + decimal((a + b) as nat),
                ));
            },
            _ => {},
        }
        i = i - 1;
    }
    Some(join_all(&ls))
}

/// The length of a line as a whole-measure rest, 0 for other lines.
pub open spec fn rest_length(line: Seq<char>) -> nat {
    match long_rest(line) {
        Some(n) => n as nat,
        None => 0,
    }
}

/// The total length of the whole-measure rest lines among `ls`.
pub open spec fn rests_total(ls: Seq<Seq<char>>) -> nat
    decreases ls.len(),
{
    if ls.len() == 0 {
        0
    } else {
        rests_total(ls.drop_last()) + rest_length(ls.last())
    }
}

proof fn lemma_rests_total_update(ls: Seq<Seq<char>>, j: int, x: Seq<char>)
    requires
        0 <= j < ls.len(),
    ensures
        rests_total(ls.update(j, x)) + rest_length(ls[j]) == rests_total(ls) + rest_length(x),
    decreases ls.len(),
{
    let upd = ls.update(j, x);
    if j == ls.len() - 1 {
        assert(upd.drop_last() =~= ls.drop_last());
    } else {
        lemma_rests_total_update(ls.drop_last(), j, x);
        assert(upd.drop_last() =~= ls.drop_last().update(j, x));
    }
}

proof fn lemma_rests_total_remove(ls: Seq<Seq<char>>, j: int)
    requires
        0 <= j < ls.len(),
    ensures
        rests_total(ls.remove(j)) + rest_length(ls[j]) == rests_total(ls),
    decreases ls.len(),
{
    let rem = ls.remove(j);
    if j == ls.len() - 1 {
        assert(rem =~= ls.drop_last());
    } else {
        lemma_rests_total_remove(ls.drop_last(), j);
        assert(rem.drop_last() =~= ls.drop_last().remove(j));
        assert(rem.last() == ls.last());
    }
}

proof fn lemma_merge_rests_total(ls: Seq<Seq<char>>, i: int)
    requires
        i < ls.len(),
        merge_rests(ls, i) is Some,
    ensures
        rests_total(merge_rests(ls, i)->0) == rests_total(ls),
    decreases i,
{
    if i >= 1 {
        match (long_rest(ls[i - 1]), long_rest(ls[i])) {
            (Some(a), Some(b)) => {
                let merged = seq![bed()] + decimal((a + b) as nat);
                let removed = ls.remove(i);
                let next = removed.update(i - 1, merged);
                lemma_long_rest_line((a + b) as u32);
                lemma_rests_total_remove(ls, i);
                assert(removed[i - 1] == ls[i - 1]);
                lemma_rests_total_update(removed, i - 1, merged);
                lemma_merge_rests_total(next, i - 1);
            },
            _ => {
                lemma_merge_rests_total(ls, i - 1);
            },
        }
    }
}

/// Merging whole-measure rest lines loses no rest: the merged lines hold
/// as many measures of rest, in total, as the lines of the text.
pub proof fn lemma_post_process_keeps_rests(text: Seq<char>)
    requires
        post_process(text) is Some,
    ensures
        rests_total(merge_rests(lines(text), lines(text).len() - 1)->0) == rests_total(lines(text)),
{
    let ls = lines(text);
    lemma_merge_rests_total(ls, ls.len() - 1);
}

/// The lines found so far are kept in front of the lines found after.
proof fn lemma_lines_from_acc(t: Seq<char>, i: int, cur: Seq<char>, acc: Seq<Seq<char>>)
    ensures
        lines_from(t, i, cur, acc) == acc + lines_from(t, i, cur, Seq::empty()),
    decreases t.len() - i,
{
    if i >= t.len() {
        if cur.len() > 0 {
            assert(acc.push(cur) =~= acc + Seq::<Seq<char>>::empty().push(cur));
        } else {
            assert(acc =~= acc + Seq::<Seq<char>>::empty());
        }
    } else if t[i] == '\n' {
        lemma_lines_from_acc(t, i + 1, Seq::empty(), acc.push(strip_cr(cur)));
        lemma_lines_from_acc(t, i + 1, Seq::empty(), Seq::<Seq<char>>::empty().push(strip_cr(cur)));
        assert(acc.push(strip_cr(cur)) =~= acc + Seq::<Seq<char>>::empty().push(strip_cr(cur)));
    } else {
        lemma_lines_from_acc(t, i + 1, cur.push(t[i]), acc);
        lemma_lines_from_acc(t, i + 1, cur.push(t[i]), Seq::empty());
    }
}

/// Reading on into `y` after the whole of `x` is reading `y` alone.
proof fn lemma_lines_from_shift(x: Seq<char>, y: Seq<char>, k: int, cur: Seq<char>, acc: Seq<Seq<char>>)
    requires
        0 <= k,
    ensures
        lines_from(x + y, x.len() + k, cur, acc) == lines_from(y, k, cur, acc),
    decreases y.len() - k,
{
    if k < y.len() {
        assert((x + y)[x.len() + k] == y[k]);
        if y[k] == '\n' {
            lemma_lines_from_shift(x, y, k + 1, Seq::empty(), acc.push(strip_cr(cur)));
        } else {
            lemma_lines_from_shift(x, y, k + 1, cur.push(y[k]), acc);
        }
    }
}

/// Within a text `x` that ends with a line break, the lines of `x + y` are
/// read as those of `x`, then those of `y`.
proof fn lemma_lines_from_prefix(x: Seq<char>, y: Seq<char>, i: int, cur: Seq<char>, acc: Seq<Seq<char>>)
    requires
        x.len() > 0,
        x.last() == '\n',
        0 <= i,
        i < x.len() || (i == x.len() && cur.len() == 0),
    ensures
        lines_from(x + y, i, cur, acc) == lines_from(x, i, cur, acc) + lines(y),
    decreases x.len() - i,
{
    if i == x.len() {
        lemma_lines_from_shift(x, y, 0, cur, acc);
        lemma_lines_from_acc(y, 0, cur, acc);
        assert(lines_from(x, i, cur, acc) == acc);
        assert(cur =~= Seq::<char>::empty());
    } else {
        assert((x + y)[i] == x[i]);
        assert(x[x.len() - 1] == '\n');
        if x[i] == '\n' {
            lemma_lines_from_prefix(x, y, i + 1, Seq::empty(), acc.push(strip_cr(cur)));
        } else {
            lemma_lines_from_prefix(x, y, i + 1, cur.push(x[i]), acc);
        }
    }
}

/// The lines of a text that ends with a line break, followed by more text,
/// are its own lines and then those of the rest.
pub proof fn lemma_lines_concat(x: Seq<char>, y: Seq<char>)
    requires
        x.len() > 0,
        x.last() == '\n',
    ensures
        lines(x + y) == lines(x) + lines(y),
{
    lemma_lines_from_prefix(x, y, 0, Seq::empty(), Seq::empty());
}

/// A line without line breaks or carriage returns, ended by a line break,
/// is one line.
pub proof fn lemma_lines_single(c: Seq<char>)
    requires
        forall|k: int| 0 <= k < c.len() ==> #[trigger] c[k] != '\n' && c[k] != '\r',
    ensures
        lines(c.push('\n')) == seq![c],
{
    let t = c.push('\n');
    assert forall|i: int| 0 <= i <= c.len() implies lines_from(t, i, c.take(i), Seq::empty()) == seq![c] by {
        lemma_lines_single_from(c, i);
    }
    assert(c.take(0) =~= Seq::<char>::empty());
}

proof fn lemma_lines_single_from(c: Seq<char>, i: int)
    requires
        forall|k: int| 0 <= k < c.len() ==> #[trigger] c[k] != '\n' && c[k] != '\r',
        0 <= i <= c.len(),
    ensures
        lines_from(c.push('\n'), i, c.take(i), Seq::empty()) == seq![c],
    decreases c.len() - i,
{
    let t = c.push('\n');
    if i == c.len() {
        assert(c.take(i) =~= c);
        assert(lines_from(t, i + 1, Seq::empty(), Seq::<Seq<char>>::empty().push(strip_cr(c))) == Seq::<Seq<char>>::empty().push(strip_cr(c)));
        if c.len() > 0 {
            assert(c.last() != '\r');
        }
        assert(Seq::<Seq<char>>::empty().push(c) =~= seq![c]);
    } else {
        assert(t[i] == c[i]);
        assert(c.take(i).push(c[i]) =~= c.take(i + 1));
        lemma_lines_single_from(c, i + 1);
    }
}

/// Merging at lines before the end of `a` leaves the lines after it alone.
proof fn lemma_merge_rests_keeps_tail(a: Seq<Seq<char>>, c: Seq<Seq<char>>, j: int)
    requires
        j < a.len(),
    ensures
        merge_rests(a + c, j) == match merge_rests(a, j) {
            Some(ma) => Some(ma + c),
            None => None,
        },
    decreases j,
{
    if j >= 1 {
        assert((a + c)[j - 1] == a[j - 1]);
        assert((a + c)[j] == a[j]);
        match (long_rest(a[j - 1]), long_rest(a[j])) {
            (Some(x), Some(y)) => {
                if x + y <= u32::MAX {
                    let m = seq![bed()] + decimal((x + y) as nat);
                    assert((a + c).remove(j).update(j - 1, m) =~= a.remove(j).update(j - 1, m) + c);
                    lemma_merge_rests_keeps_tail(a.remove(j).update(j - 1, m), c, j - 1);
                }
            },
            _ => {
                lemma_merge_rests_keeps_tail(a, c, j - 1);
            },
        }
    }
}

/// Merging from inside `b`, behind lines `a` whose last is no rest, merges
/// `b` on its own, then goes on into `a`.
proof fn lemma_merge_rests_behind(a: Seq<Seq<char>>, b: Seq<Seq<char>>, i: int)
    requires
        a.len() > 0,
        long_rest(a.last()) is None,
        0 <= i < b.len(),
    ensures
        merge_rests(a + b, a.len() + i) == match merge_rests(b, i) {
            Some(mb) => merge_rests(a + mb, a.len() - 1),
            None => None,
        },
    decreases i,
{
    if i == 0 {
        assert((a + b)[a.len() - 1] == a.last());
    } else {
        assert((a + b)[a.len() + i - 1] == b[i - 1]);
        assert((a + b)[a.len() + i] == b[i]);
        match (long_rest(b[i - 1]), long_rest(b[i])) {
            (Some(x), Some(y)) => {
                if x + y <= u32::MAX {
                    let m = seq![bed()] + decimal((x + y) as nat);
                    let b2 = b.remove(i).update(i - 1, m);
                    assert((a + b).remove(a.len() + i).update(a.len() + i - 1, m) =~= a + b2);
                    lemma_merge_rests_behind(a, b2, i - 1);
                }
            },
            _ => {
                lemma_merge_rests_behind(a, b, i - 1);
            },
        }
    }
}

/// Lines with no two neighbouring rests are left as they are.
proof fn lemma_merge_rests_apart_unchanged(ls: Seq<Seq<char>>, j: int)
    requires
        rests_apart(ls, 0),
        j < ls.len(),
    ensures
        merge_rests(ls, j) == Some(ls),
    decreases j,
{
    if j >= 1 {
        assert(!(long_rest(ls[j - 1]) is Some && long_rest(ls[j]) is Some));
        lemma_merge_rests_apart_unchanged(ls, j - 1);
    }
}

/// Merging keeps at least one line.
proof fn lemma_merge_rests_nonempty(ls: Seq<Seq<char>>, i: int)
    requires
        ls.len() > 0,
        merge_rests(ls, i) is Some,
    ensures
        merge_rests(ls, i)->0.len() > 0,
    decreases i,
{
    if i >= 1 && i < ls.len() {
        match (long_rest(ls[i - 1]), long_rest(ls[i])) {
            (Some(x), Some(y)) => {
                let m = seq![bed()] + decimal((x + y) as nat);
                lemma_merge_rests_nonempty(ls.remove(i).update(i - 1, m), i - 1);
            },
            _ => {
                lemma_merge_rests_nonempty(ls, i - 1);
            },
        }
    }
}

/// Joining two runs of lines is joining each, with a line break between.
pub proof fn lemma_join_lines_concat(a: Seq<Seq<char>>, b: Seq<Seq<char>>)
    requires
        a.len() > 0,
        b.len() > 0,
    ensures
        join_lines(a + b) == join_lines(a).push('\n') + join_lines(b),
    decreases b.len(),
{
    assert((a + b).drop_last() =~= a + b.drop_last());
    assert((a + b).last() == b.last());
    if b.len() == 1 {
        assert(b.drop_last() =~= Seq::<Seq<char>>::empty());
        assert(a + b.drop_last() =~= a);
        assert(b.last() == b[0]);
    } else {
        lemma_join_lines_concat(a, b.drop_last());
        assert((join_lines(a).push('\n') + join_lines(b.drop_last())).push('\n') + b.last() =~= join_lines(
            a,
        ).push('\n') + (join_lines(b.drop_last()).push('\n') + b.last()));
    }
}

/// Text behind a head whose lines hold no neighbouring rests and end in no
/// rest is tidied on its own: the head's lines are kept as they are.
pub proof fn lemma_post_process_behind(x: Seq<char>, y: Seq<char>)
    requires
        x.len() > 0,
        x.last() == '\n',
        lines(x).len() > 0,
        rests_apart(lines(x), 0),
        long_rest(lines(x).last()) is None,
        lines(y).len() > 0,
    ensures
        post_process(x + y) == match post_process(y) {
            Some(py) => Some(join_lines(lines(x)).push('\n') + py),
            None => None,
        },
{
    lemma_lines_concat(x, y);
    let a = lines(x);
    let b = lines(y);
    assert(lines(x + y).len() - 1 == a.len() + (b.len() - 1));
    lemma_merge_rests_behind(a, b, b.len() - 1);
    match merge_rests(b, b.len() - 1) {
        Some(mb) => {
            lemma_merge_rests_nonempty(b, b.len() - 1);
            lemma_merge_rests_keeps_tail(a, mb, a.len() - 1);
            lemma_merge_rests_apart_unchanged(a, a.len() - 1);
            lemma_join_lines_concat(a, mb);
        },
        None => {},
    }
}

proof fn lemma_lines_from_nonempty(t: Seq<char>, i: int, cur: Seq<char>, acc: Seq<Seq<char>>)
    requires
        0 <= i,
        acc.len() > 0 || cur.len() > 0 || i < t.len(),
    ensures
        lines_from(t, i, cur, acc).len() > 0,
    decreases t.len() - i,
{
    if i < t.len() {
        if t[i] == '\n' {
            lemma_lines_from_nonempty(t, i + 1, Seq::empty(), acc.push(strip_cr(cur)));
        } else {
            lemma_lines_from_nonempty(t, i + 1, cur.push(t[i]), acc);
        }
    }
}

/// A text with any character in it has a line.
pub proof fn lemma_lines_nonempty(t: Seq<char>)
    requires
        t.len() > 0,
    ensures
        lines(t).len() > 0,
{
    lemma_lines_from_nonempty(t, 0, Seq::empty(), Seq::empty());
}

proof fn lemma_lines_from_push_break(x: Seq<char>, i: int, cur: Seq<char>, acc: Seq<Seq<char>>)
    requires
        x.len() > 0,
        x.last() != '\n',
        x.last() != '\r',
        0 <= i,
        i < x.len() || (i == x.len() && cur.len() > 0 && cur.last() != '\r'),
    ensures
        lines_from(x.push('\n'), i, cur, acc) == lines_from(x, i, cur, acc),
    decreases x.len() - i,
{
    let xn = x.push('\n');
    if i == x.len() {
        assert(xn[i] == '\n');
        assert(lines_from(xn, i + 1, Seq::empty(), acc.push(strip_cr(cur))) == acc.push(strip_cr(cur)));
    } else {
        assert(xn[i] == x[i]);
        assert(x[x.len() - 1] == x.last());
        if x[i] == '\n' {
            lemma_lines_from_push_break(x, i + 1, Seq::empty(), acc.push(strip_cr(cur)));
        } else {
            assert(cur.push(x[i]).last() == x[i]);
            lemma_lines_from_push_break(x, i + 1, cur.push(x[i]), acc);
        }
    }
}

/// A line break after a text that ends in neither a line break nor a
/// carriage return adds no line.
proof fn lemma_lines_push_break(x: Seq<char>)
    requires
        x.len() > 0,
        x.last() != '\n',
        x.last() != '\r',
    ensures
        lines(x.push('\n')) == lines(x),
{
    lemma_lines_from_push_break(x, 0, Seq::empty(), Seq::empty());
}

/// Whole-measure rests are never merged across a line holding `|`: two
/// texts joined by such a line are tidied each on its own. (The first must
/// not end in a line break or a carriage return, which would leave a line
/// of its own before the `|`.)
pub proof fn lemma_post_process_tracks(x: Seq<char>, y: Seq<char>)
    requires
        x.len() > 0,
        x.last() != '\n',
        x.last() != '\r',
        y.len() > 0,
    ensures
        post_process(x + seq!['\n', '|', '\n'] + y) == match (post_process(x), post_process(y)) {
            (Some(a), Some(b)) => Some(a + seq!['\n', '|', '\n'] + b),
            _ => None,
        },
{
    let bar = seq!['|'];
    let xn = x.push('\n');
    let bn = bar.push('\n');
    assert(x + seq!['\n', '|', '\n'] + y =~= xn + (bn + y));
    lemma_lines_push_break(x);
    lemma_lines_concat(xn, bn + y);
    lemma_lines_concat(bn, y);
    lemma_lines_single(bar);
    lemma_lines_nonempty(x);
    lemma_lines_nonempty(y);
    let a = lines(x);
    let b = lines(y);
    let ab = a + seq![bar];
    assert(lines(x + seq!['\n', '|', '\n'] + y) =~= ab + b);
    assert(long_rest(bar) is None) by {
        reveal(long_rest);
    }
    assert(ab.last() == bar);
    lemma_merge_rests_behind(ab, b, b.len() - 1);
    assert((ab + b).len() - 1 == ab.len() + (b.len() - 1));
    match merge_rests(b, b.len() - 1) {
        None => {},
        Some(mb) => {
            lemma_merge_rests_nonempty(b, b.len() - 1);
            let l = ab + mb;
            assert(l[a.len() as int] == bar);
            assert(merge_rests(l, a.len() as int) == merge_rests(l, a.len() - 1));
            assert(l =~= a + (seq![bar] + mb));
            lemma_merge_rests_keeps_tail(a, seq![bar] + mb, a.len() - 1);
            match merge_rests(a, a.len() - 1) {
                None => {},
                Some(ma) => {
                    lemma_merge_rests_nonempty(a, a.len() - 1);
                    lemma_join_lines_concat(ma, seq![bar] + mb);
                    lemma_join_lines_concat(seq![bar], mb);
                    assert(join_lines(seq![bar]) == bar);
                    assert(join_lines(ma).push('\n') + (bar.push('\n') + join_lines(mb)) =~= join_lines(ma)
                        + seq!['\n', '|', '\n'] + join_lines(mb));
                },
            }
        },
    }
}

} // verus!
