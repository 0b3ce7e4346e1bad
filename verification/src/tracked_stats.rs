use vstd::prelude::*;

use crate::string_interner::{InternedString, StringInterner};
use crate::text::{chars_to_string, concat, decimal, push_char, repeat_char, str_to_chars, usize_to_string};

verus! {

/// How often one named callable was called.
#[derive(Debug, Clone, Copy, PartialEq, Eq, Structural)]
pub struct TrackedCallableStats {
    pub calls: usize,
    pub tail_calls: usize,
}

/// Call statistics gathered while evaluating one expression.
pub struct TrackedStats {
    pub max_call_stack_depth: usize,
    pub callable_calls: Vec<(InternedString, TrackedCallableStats)>,
}

/// The statistics recorded for `name` in `entries`.
pub open spec fn stats_for(entries: Seq<(InternedString, TrackedCallableStats)>, name: InternedString) -> Option<TrackedCallableStats>
    decreases entries.len(),
{
    if entries.len() == 0 {
        None
    } else if entries.last().0 == name {
        Some(entries.last().1)
    } else {
        stats_for(entries.drop_last(), name)
    }
}

/// `n` plus one, or `n` where that would not fit in a `usize`.
pub open spec fn saturating_next(n: usize) -> usize {
    if n < usize::MAX {
        (n + 1) as usize
    } else {
        n
    }
}

/// The statistics `s` after one more call, or one more tail call where
/// `tail` is set.
pub open spec fn bumped(s: TrackedCallableStats, tail: bool) -> TrackedCallableStats {
    if tail {
        TrackedCallableStats { calls: s.calls, tail_calls: saturating_next(s.tail_calls) }
    } else {
        TrackedCallableStats { calls: saturating_next(s.calls), tail_calls: s.tail_calls }
    }
}

/// The statistics recorded for `name`, none counting as no calls.
pub open spec fn stats_or_zero(entries: Seq<(InternedString, TrackedCallableStats)>, name: InternedString) -> TrackedCallableStats {
    match stats_for(entries, name) {
        Some(s) => s,
        None => TrackedCallableStats { calls: 0, tail_calls: 0 },
    }
}

/// Replacing the last entry for `name` changes what is recorded for `name`
/// alone.
proof fn lemma_stats_for_update(
    entries: Seq<(InternedString, TrackedCallableStats)>,
    i: int,
    name: InternedString,
    u: TrackedCallableStats,
    n: InternedString,
)
    requires
        0 <= i < entries.len(),
        entries[i].0 == name,
        forall|j: int| i < j < entries.len() ==> entries[j].0 != name,
    ensures
        stats_for(entries.update(i, (name, u)), n) == if n == name {
            Some(u)
        } else {
            stats_for(entries, n)
        },
    decreases entries.len(),
{
    let e2 = entries.update(i, (name, u));
    if i < entries.len() - 1 {
        assert(e2.drop_last() =~= entries.drop_last().update(i, (name, u)));
        lemma_stats_for_update(entries.drop_last(), i, name, u, n);
        assert(e2.last() == entries.last());
    } else {
        assert(e2.drop_last() =~= entries.drop_last());
    }
}

impl TrackedStats {
    pub open spec fn entries(&self) -> Seq<(InternedString, TrackedCallableStats)> {
        self.callable_calls@
    }

    pub fn new() -> (res: Self)
        ensures
            res.max_call_stack_depth == 0,
            res.entries().len() == 0,
    {
        TrackedStats { max_call_stack_depth: 0, callable_calls: Vec::new() }
    }

    pub fn update_call_stack_depth(&mut self, new_depth: usize)
        ensures
            final(self).max_call_stack_depth == if new_depth > old(self).max_call_stack_depth {
                new_depth
            } else {
                old(self).max_call_stack_depth
            },
            final(self).entries() == old(self).entries(),
    {
        if new_depth > self.max_call_stack_depth {
            self.max_call_stack_depth = new_depth;
        }
    }

    /// The position of `name`'s entry, searching from the end.
    fn find(&self, name: InternedString) -> (res: Option<usize>)
        ensures
            res is None ==> stats_for(self.entries(), name) is None,
            res matches Some(i) ==> i < self.entries().len() && self.entries()[i as int].0 == name
                && stats_for(self.entries(), name) == Some(self.entries()[i as int].1)
                && forall|j: int| i < j < self.entries().len() ==> self.entries()[j].0 != name,
    {
        let mut i: usize = self.callable_calls.len();
        assert(self.entries().take(i as int) =~= self.entries());
        while i > 0
            invariant
                i <= self.entries().len(),
                stats_for(self.entries().take(i as int), name) == stats_for(self.entries(), name),
                forall|j: int| i <= j < self.entries().len() ==> self.entries()[j].0 != name,
            decreases i,
        {
            assert(self.entries().take(i as int).drop_last() =~= self.entries().take(i - 1));
            if self.callable_calls[i - 1].0 == name {
                return Some(i - 1);
            }
            i = i - 1;
        }
        assert(self.entries().take(0) =~= Seq::<(InternedString, TrackedCallableStats)>::empty());
        None
    }

    fn bump(&mut self, name: InternedString, tail: bool)
        ensures
            final(self).max_call_stack_depth == old(self).max_call_stack_depth,
            stats_for(final(self).entries(), name) == Some(bumped(stats_or_zero(old(self).entries(), name), tail)),
            forall|n: InternedString| n != name ==> #[trigger] stats_for(final(self).entries(), n) == stats_for(old(self).entries(), n),
            final(self).entries().len() == old(self).entries().len() + if stats_for(old(self).entries(), name) is None {
                1int
            } else {
                0int
            },
    {
        let current = match self.find(name) {
            Some(i) => self.callable_calls[i].1,
            None => TrackedCallableStats { calls: 0, tail_calls: 0 },
        };
        let updated = if tail {
            TrackedCallableStats { calls: current.calls, tail_calls: current.tail_calls.saturating_add(1) }
        } else {
            TrackedCallableStats { calls: current.calls.saturating_add(1), tail_calls: current.tail_calls }
        };
        let ghost before = self.entries();
        match self.find(name) {
            Some(i) => {
                self.callable_calls.set(i, (name, updated));
                proof {
                    assert(self.entries() == before.update(i as int, (name, updated)));
                    assert forall|n: InternedString| #[trigger] stats_for(self.entries(), n) == if n == name {
                        Some(updated)
                    } else {
                        stats_for(before, n)
                    } by {
                        lemma_stats_for_update(before, i as int, name, updated, n);
                    }
                }
            },
            None => {
                self.callable_calls.push((name, updated));
                proof {
                    assert(self.entries().drop_last() =~= before);
                    assert forall|n: InternedString| #[trigger] stats_for(self.entries(), n) == if n == name {
                        Some(updated)
                    } else {
                        stats_for(before, n)
                    } by {
                        assert(self.entries().drop_last() =~= before);
                    }
                }
            },
        }
    }

    /// Counts a tail call of the callable named `name`, if it has a name.
    pub fn track_tail_call(&mut self, name: Option<InternedString>)
        ensures
            final(self).max_call_stack_depth == old(self).max_call_stack_depth,
            name is None ==> final(self).entries() == old(self).entries(),
            name matches Some(n) ==> stats_for(final(self).entries(), n) == Some(
                bumped(stats_or_zero(old(self).entries(), n), true),
            ) && forall|m: InternedString| m != n ==> #[trigger] stats_for(final(self).entries(), m) == stats_for(
                old(self).entries(),
                m,
            ),
    {
        if let Some(name) = name {
            self.bump(name, true);
        }
    }

    /// Counts a call of the callable named `name`, if it has a name.
    pub fn track_call(&mut self, name: Option<InternedString>)
        ensures
            final(self).max_call_stack_depth == old(self).max_call_stack_depth,
            name is None ==> final(self).entries() == old(self).entries(),
            name matches Some(n) ==> stats_for(final(self).entries(), n) == Some(
                bumped(stats_or_zero(old(self).entries(), n), false),
            ) && forall|m: InternedString| m != n ==> #[trigger] stats_for(final(self).entries(), m) == stats_for(
                old(self).entries(),
                m,
            ),
    {
        if let Some(name) = name {
            self.bump(name, false);
        }
    }

    /// A table of the calls and tail calls of each named callable, ordered by
    /// name, followed by the maximum call stack depth.
    pub fn as_table(&self, interner: &StringInterner) -> (res: String)
        ensures
            is_stats_table(res@, self.entries(), interner@, self.max_call_stack_depth as nat),
    {
        let mut lines: Vec<String> = Vec::new();
        lines.push(table_row("Name", "Calls", "Tail calls"));
        lines.push(repeat_char('-', 60));
        let ghost expected = self.entries().map_values(
            |e: (InternedString, TrackedCallableStats)| entry_row(interner@, e),
        );
        let mut rows: Vec<Vec<char>> = Vec::new();
        let mut i: usize = 0;
        while i < self.callable_calls.len()
            invariant
                i <= self.callable_calls.len(),
                expected == self.entries().map_values(
                    |e: (InternedString, TrackedCallableStats)| entry_row(interner@, e),
                ),
                views(rows@) == expected.take(i as int),
            decreases self.callable_calls.len() - i,
        {
            let (name, stats) = self.callable_calls[i];
            let name_text = match interner.try_get(name) {
                Some(t) => t,
                None => "",
            };
            let row = table_row(
                name_text,
                usize_to_string(stats.calls).as_str(),
                usize_to_string(stats.tail_calls).as_str(),
            );
            let ghost before = rows@;
            let chars = str_to_chars(row.as_str());
            assert(chars@ == row@);
            rows.push(chars);
            proof {
                reveal_strlit("");
                assert(name_text@ == crate::display::name_text(interner@, name));
                assert(expected[i as int] == entry_row(interner@, self.entries()[i as int]));
                assert(row@ == expected[i as int]);
                assert(views(rows@) =~= views(before).push(row@));
                assert(views(rows@) =~= expected.take(i + 1));
            }
            i = i + 1;
        }
        proof {
            assert(expected.take(i as int) =~= expected);
        }
        sort_rows(&mut rows);
        let ghost head = string_texts(lines@);
        let mut j: usize = 0;
        while j < rows.len()
            invariant
                j <= rows.len(),
                string_texts(lines@) == head + views(rows@).take(j as int),
            decreases rows.len() - j,
        {
            let ghost before = lines@;
            let line = chars_to_string(rows[j].as_slice());
            lines.push(line);
            proof {
                assert(line@ == views(rows@)[j as int]);
                assert(string_texts(lines@) =~= string_texts(before).push(line@));
                assert(string_texts(lines@) =~= head + views(rows@).take(j + 1));
            }
            j = j + 1;
        }
        let last = concat("\nMaximum call stack depth: ", usize_to_string(self.max_call_stack_depth).as_str());
        let ghost before_last = string_texts(lines@);
        lines.push(last);
        proof {
            assert(views(rows@).take(j as int) =~= views(rows@));
            assert(string_texts(lines@) =~= before_last.push(last@));
            assert(head =~= seq![table_row_text("Name"@, "Calls"@, "Tail calls"@), Seq::new(60, |_i: int| '-')]);
            assert(string_texts(lines@) =~= table_lines(views(rows@), self.max_call_stack_depth as nat));
        }
        join_lines(&lines)
    }
}

/// One row of the table: the name, the calls and the tail calls, each padded
/// to its column's width.
pub open spec fn table_row_text(name: Seq<char>, calls: Seq<char>, tail_calls: Seq<char>) -> Seq<char> {
    padded(name, 40) + " "@ + padded(calls, 8) + " "@ + padded(tail_calls, 12)
}

/// The row of the table for one entry.
pub open spec fn entry_row(interner: Seq<Seq<char>>, e: (InternedString, TrackedCallableStats)) -> Seq<char> {
    table_row_text(crate::display::name_text(interner, e.0), decimal(e.1.calls as nat), decimal(e.1.tail_calls as nat))
}

/// The lines of the table with `rows` as its body.
pub open spec fn table_lines(rows: Seq<Seq<char>>, max_depth: nat) -> Seq<Seq<char>> {
    seq![table_row_text("Name"@, "Calls"@, "Tail calls"@), Seq::new(60, |_i: int| '-')] + rows + seq![
        "\nMaximum call stack depth: "@ + decimal(max_depth),
    ]
}

/// Whether `text` is the statistics table for `entries`: a header, a rule,
/// one row per entry with the rows in order, and the maximum stack depth.
pub open spec fn is_stats_table(
    text: Seq<char>,
    entries: Seq<(InternedString, TrackedCallableStats)>,
    interner: Seq<Seq<char>>,
    max_depth: nat,
) -> bool {
    exists|rows: Seq<Seq<char>>|
        #[trigger] rows_sorted(rows) && rows.to_multiset() == entries.map_values(
            |e: (InternedString, TrackedCallableStats)| entry_row(interner, e),
        ).to_multiset() && text == joined(table_lines(rows, max_depth))
}

/// `s` padded with spaces on the right to `width` characters.
pub open spec fn padded(s: Seq<char>, width: nat) -> Seq<char> {
    if s.len() >= width {
        s
    } else {
        s + Seq::new((width - s.len()) as nat, |_i: int| ' ')
    }
}

/// `s` padded with spaces on the right to `width` characters, as `{:width}` does.
pub fn pad_right(s: &str, width: usize) -> (res: String)
    ensures
        res@ == padded(s@, width as nat),
{
    let chars = str_to_chars(s);
    if chars.len() >= width {
        return String::from_str(s);
    }
    let spaces = repeat_char(' ', width - chars.len());
    concat(s, spaces.as_str())
}

fn table_row(name: &str, calls: &str, tail_calls: &str) -> (res: String)
    ensures
        res@ == table_row_text(name@, calls@, tail_calls@),
{
    let a = pad_right(name, 40);
    let b = pad_right(calls, 8);
    let c = pad_right(tail_calls, 12);
    let ab = concat(concat(a.as_str(), " ").as_str(), b.as_str());
    concat(concat(ab.as_str(), " ").as_str(), c.as_str())
}

/// Whether `a` comes before `b` in the order of their characters' code points.
pub open spec fn chars_less(a: Seq<char>, b: Seq<char>) -> bool
    decreases a.len(),
{
    if a.len() == 0 {
        b.len() > 0
    } else if b.len() == 0 {
        false
    } else if a[0] != b[0] {
        (a[0] as int) < (b[0] as int)
    } else {
        chars_less(a.drop_first(), b.drop_first())
    }
}

fn less(a: &Vec<char>, b: &Vec<char>) -> (res: bool)
    ensures
        res == chars_less(a@, b@),
{
    let mut i: usize = 0;
    assert(a@.skip(0) =~= a@);
    assert(b@.skip(0) =~= b@);
    while i < a.len() && i < b.len()
        invariant
            i <= a.len(),
            i <= b.len(),
            chars_less(a@.skip(i as int), b@.skip(i as int)) == chars_less(a@, b@),
        decreases a.len() - i,
    {
        assert(a@.skip(i as int).drop_first() =~= a@.skip(i + 1));
        assert(b@.skip(i as int).drop_first() =~= b@.skip(i + 1));
        if a[i] != b[i] {
            assert(a@.skip(i as int)[0] == a@[i as int]);
            assert(b@.skip(i as int)[0] == b@[i as int]);
            return a[i] < b[i];
        }
        i = i + 1;
    }
    b.len() > i
}

proof fn lemma_less_irreflexive(a: Seq<char>)
    ensures
        !chars_less(a, a),
    decreases a.len(),
{
    if a.len() > 0 {
        lemma_less_irreflexive(a.drop_first());
    }
}

proof fn lemma_less_asymmetric(a: Seq<char>, b: Seq<char>)
    requires
        chars_less(a, b),
    ensures
        !chars_less(b, a),
    decreases a.len(),
{
    if a.len() > 0 && b.len() > 0 && a[0] == b[0] {
        lemma_less_asymmetric(a.drop_first(), b.drop_first());
    }
}

proof fn lemma_less_transitive(a: Seq<char>, b: Seq<char>, c: Seq<char>)
    requires
        chars_less(a, b),
        chars_less(b, c),
    ensures
        chars_less(a, c),
    decreases a.len(),
{
    if a.len() > 0 && b.len() > 0 && c.len() > 0 && a[0] == b[0] && b[0] == c[0] {
        lemma_less_transitive(a.drop_first(), b.drop_first(), c.drop_first());
    }
}

proof fn lemma_less_total(a: Seq<char>, b: Seq<char>)
    ensures
        a == b || chars_less(a, b) || chars_less(b, a),
    decreases a.len(),
{
    if a.len() > 0 && b.len() > 0 && a[0] == b[0] {
        lemma_less_total(a.drop_first(), b.drop_first());
        if a.drop_first() == b.drop_first() {
            assert(a =~= b) by {
                assert forall|i: int| 0 <= i < a.len() implies a[i] == b[i] by {
                    if i > 0 {
                        assert(a[i] == a.drop_first()[i - 1]);
                        assert(b[i] == b.drop_first()[i - 1]);
                    }
                }
            }
        }
    } else if a.len() == 0 && b.len() == 0 {
        assert(a =~= b);
    }
}

/// Not coming before is transitive.
proof fn lemma_not_less_transitive(x: Seq<char>, y: Seq<char>, z: Seq<char>)
    requires
        !chars_less(x, y),
        !chars_less(y, z),
    ensures
        !chars_less(x, z),
{
    if chars_less(x, z) {
        lemma_less_total(x, y);
        lemma_less_total(y, z);
        if x != y && y != z {
            lemma_less_transitive(z, y, x);
            lemma_less_asymmetric(z, x);
        }
    }
}

/// The texts of some rows.
pub open spec fn views(rows: Seq<Vec<char>>) -> Seq<Seq<char>> {
    rows.map_values(|r: Vec<char>| r@)
}

/// Whether no row comes before an earlier one.
pub open spec fn rows_sorted(rows: Seq<Seq<char>>) -> bool {
    forall|i: int, j: int| 0 <= i < j < rows.len() ==> !chars_less(#[trigger] rows[j], #[trigger] rows[i])
}

proof fn lemma_insert_to_multiset<T>(s: Seq<T>, i: int, a: T)
    requires
        0 <= i <= s.len(),
    ensures
        s.insert(i, a).to_multiset() == s.to_multiset().insert(a),
{
    broadcast use vstd::seq_lib::group_to_multiset_ensures;

    let t = s.insert(i, a);
    assert(t.remove(i) =~= s);
    assert(t[i] == a);
    assert(t.to_multiset().count(a) > 0) by {
        assert(t.contains(a));
    }
    assert(t.to_multiset() =~= s.to_multiset().insert(a));
}

/// Sorts rows in the order of `chars_less` (insertion sort).
fn sort_rows(rows: &mut Vec<Vec<char>>)
    ensures
        views(final(rows)@).to_multiset() == views(old(rows)@).to_multiset(),
        rows_sorted(views(final(rows)@)),
{
    broadcast use vstd::seq_lib::group_to_multiset_ensures;

    let mut sorted: Vec<Vec<char>> = Vec::new();
    let ghost original = views(rows@);
    assert(views(sorted@).to_multiset() =~= vstd::multiset::Multiset::empty());
    assert(views(rows@).to_multiset().add(views(sorted@).to_multiset()) =~= original.to_multiset());
    while rows.len() > 0
        invariant
            views(rows@).to_multiset().add(views(sorted@).to_multiset()) == original.to_multiset(),
            rows_sorted(views(sorted@)),
        decreases rows@.len(),
    {
        let ghost before_rows = views(rows@);
        let ghost before_sorted = views(sorted@);
        let row = rows.pop().unwrap();
        proof {
            assert(before_rows =~= views(rows@).push(row@));
        }
        let mut pos: usize = 0;
        while pos < sorted.len() && less(&sorted[pos], &row)
            invariant
                pos <= sorted@.len(),
                views(sorted@) == before_sorted,
                forall|k: int| 0 <= k < pos ==> chars_less(#[trigger] before_sorted[k], row@),
            decreases sorted@.len() - pos,
        {
            pos = pos + 1;
        }
        sorted.insert(pos, row);
        proof {
            let now = views(sorted@);
            assert(now =~= before_sorted.insert(pos as int, row@));
            lemma_insert_to_multiset(before_sorted, pos as int, row@);
            let rest = views(rows@);
            assert(before_rows == rest.push(row@));
            vstd::seq_lib::to_multiset_build(rest, row@);
            assert(before_rows.to_multiset() == rest.to_multiset().insert(row@));
            assert(now.to_multiset() == before_sorted.to_multiset().insert(row@));
            assert(rest.to_multiset().add(now.to_multiset()) =~= before_rows.to_multiset().add(
                before_sorted.to_multiset(),
            ));
            assert forall|i: int, j: int| 0 <= i < j < now.len() implies !chars_less(#[trigger] now[j], #[trigger] now[i]) by {
                let p = pos as int;
                if j < p {
                } else if j == p {
                    assert(chars_less(before_sorted[i], row@));
                    lemma_less_asymmetric(before_sorted[i], row@);
                } else if i < p {
                    assert(now[j] == before_sorted[j - 1]);
                } else if i == p {
                    assert(now[j] == before_sorted[j - 1]);
                    assert(p < before_sorted.len());
                    assert(!chars_less(before_sorted[p], row@));
                    if j - 1 > p {
                        assert(!chars_less(before_sorted[j - 1], before_sorted[p]));
                    } else {
                        lemma_less_irreflexive(before_sorted[p]);
                    }
                    lemma_not_less_transitive(before_sorted[j - 1], before_sorted[p], row@);
                } else {
                    assert(now[j] == before_sorted[j - 1]);
                    assert(now[i] == before_sorted[i - 1]);
                }
            }
        }
    }
    proof {
        assert(views(rows@).to_multiset() =~= vstd::multiset::Multiset::empty());
        assert(views(sorted@).to_multiset() =~= original.to_multiset());
    }
    std::mem::swap(rows, &mut sorted);
}

/// The lines joined with newlines.
pub open spec fn joined(lines: Seq<Seq<char>>) -> Seq<char>
    decreases lines.len(),
{
    if lines.len() == 0 {
        Seq::empty()
    } else if lines.len() == 1 {
        lines[0]
    } else {
        joined(lines.drop_last()) + seq!['\n'] + lines.last()
    }
}

/// The texts of some strings.
pub open spec fn string_texts(lines: Seq<String>) -> Seq<Seq<char>> {
    lines.map_values(|s: String| s@)
}

/// The lines joined with newlines.
pub fn join_lines(lines: &Vec<String>) -> (res: String)
    ensures
        res@ == joined(string_texts(lines@)),
{
    let mut res = String::new();
    let mut i: usize = 0;
    while i < lines.len()
        invariant
            i <= lines.len(),
            res@ == joined(string_texts(lines@).take(i as int)),
        decreases lines.len() - i,
    {
        let ghost before = res@;
        if i > 0 {
            push_char(&mut res, '\n');
        }
        res.append(lines[i].as_str());
        proof {
            let t = string_texts(lines@).take(i + 1);
            assert(t.drop_last() =~= string_texts(lines@).take(i as int));
            if i == 0 {
                assert(res@ =~= t[0]);
            } else {
                assert(res@ =~= before + seq!['\n'] + t.last());
            }
        }
        i = i + 1;
    }
    assert(string_texts(lines@).take(i as int) =~= string_texts(lines@));
    res
}

} // verus!
