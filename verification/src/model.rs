//! The editable rule table behind the rule rows: each row has an id that
//! stays stable while rows before it are deleted.
use vstd::prelude::*;

verus! {

/// One side of a rule: an address and a path prefix.
#[derive(Debug, Clone)]
pub struct Host {
    pub addr: String,
    pub path_prefix: String,
}

/// A rule as the user edits it: what to match and where to forward.
#[derive(Debug, Clone)]
pub struct Rule {
    pub matcher: Host,
    pub forward: Host,
}

impl Rule {
    /// A copy of this rule.
    pub fn duplicate(&self) -> (r: Self)
        ensures
            r == *self,
    {
        Rule {
            matcher: Host {
                addr: self.matcher.addr.clone(),
                path_prefix: self.matcher.path_prefix.clone(),
            },
            forward: Host {
                addr: self.forward.addr.clone(),
                path_prefix: self.forward.path_prefix.clone(),
            },
        }
    }
}

/// The rule a newly added row starts with: empty addresses, match prefix `/`,
/// empty forward prefix.
pub fn blank_rule() -> (r: Rule)
    ensures
        r.matcher.addr@ == Seq::<char>::empty(),
        r.matcher.path_prefix@ == seq!['/'],
        r.forward.addr@ == Seq::<char>::empty(),
        r.forward.path_prefix@ == Seq::<char>::empty(),
{
    let slash = "/".to_owned();
    proof {
        reveal_strlit("/");
        assert("/"@ =~= seq!['/']);
    }
    Rule {
        matcher: Host { addr: String::new(), path_prefix: slash },
        forward: Host { addr: String::new(), path_prefix: String::new() },
    }
}

/// The text of an edit field of a rule: 0 match address, 1 match prefix,
/// 2 forward address, anything else the forward prefix.
pub open spec fn rule_field(rule: Rule, field: int) -> Seq<char> {
    if field == 0 {
        rule.matcher.addr@
    } else if field == 1 {
        rule.matcher.path_prefix@
    } else if field == 2 {
        rule.forward.addr@
    } else {
        rule.forward.path_prefix@
    }
}

/// One row of the table: a stable id and its rule.
#[derive(Debug, Clone)]
pub struct RuleRow {
    pub id: u64,
    pub rule: Rule,
}

/// The rows in display order.
pub struct Model {
    rows: Vec<RuleRow>,
}

/// The one source of row ids for the whole program: every row, in every
/// table, gets its id from it, so no id is handed out twice.
pub struct RowIds {
    next: u64,
}

impl RowIds {
    #[verifier::type_invariant]
    spec fn starts_at_one(self) -> bool {
        self.next >= 1
    }

    /// The id that the next added row gets.
    pub closed spec fn next(&self) -> u64 {
        self.next
    }

    /// Whether another id can still be handed out.
    pub fn can_draw(&self) -> (b: bool)
        ensures
            b == (self.next() < u64::MAX),
    {
        self.next < u64::MAX
    }
}

/// The id source of a program that has handed out no id yet; the first id is 1.
pub fn new_row_ids() -> (ids: RowIds)
    ensures
        ids.next() == 1,
{
    RowIds { next: 1 }
}

/// Ids grow along the rows, so no two rows share one.
pub open spec fn ids_increasing(rows: Seq<RuleRow>) -> bool {
    forall|i: int, j: int| 0 <= i < j < rows.len() ==> rows[i].id < rows[j].id
}

/// Every row's id lies below `bound`: the rows took their ids from a source
/// that now stands at `bound`.
pub open spec fn ids_below(rows: Seq<RuleRow>, bound: u64) -> bool {
    forall|i: int| 0 <= i < rows.len() ==> #[trigger] rows[i].id < bound
}

/// Position of the row with `id`, or -1.
pub open spec fn position(rows: Seq<RuleRow>, id: u64) -> int
    decreases rows.len(),
{
    if rows.len() == 0 {
        -1
    } else if rows[0].id == id {
        0
    } else {
        let r = position(rows.drop_first(), id);
        if r < 0 {
            -1
        } else {
            r + 1
        }
    }
}

pub proof fn lemma_position(rows: Seq<RuleRow>, id: u64)
    ensures
        -1 <= position(rows, id) < rows.len(),
        position(rows, id) >= 0 ==> rows[position(rows, id)].id == id,
        position(rows, id) == -1 ==> forall|j: int| 0 <= j < rows.len() ==> rows[j].id != id,
        forall|j: int| 0 <= j < position(rows, id) ==> rows[j].id != id,
    decreases rows.len(),
{
    if rows.len() > 0 && rows[0].id != id {
        lemma_position(rows.drop_first(), id);
        assert forall|j: int| 0 < j < rows.len() implies rows[j] == rows.drop_first()[j - 1] by {}
    }
}

pub proof fn lemma_position_unique(rows: Seq<RuleRow>, id: u64, i: int)
    requires
        -1 <= i < rows.len(),
        i >= 0 ==> rows[i].id == id,
        forall|j: int| 0 <= j < rows.len() && (i < 0 || j < i) ==> rows[j].id != id,
    ensures
        position(rows, id) == i,
{
    lemma_position(rows, id);
}

/// The rows once `id` is taken out; unchanged when no row has it.
pub open spec fn rows_without(rows: Seq<RuleRow>, id: u64) -> Seq<RuleRow> {
    let p = position(rows, id);
    if p < 0 {
        rows
    } else {
        rows.remove(p)
    }
}

impl Model {
    pub closed spec fn rows(&self) -> Seq<RuleRow> {
        self.rows@
    }

    /// The table's invariant.
    pub open spec fn wf(&self) -> bool {
        ids_increasing(self.rows())
    }

    /// The rules, in display order.
    pub open spec fn rules(&self) -> Seq<Rule> {
        self.rows().map_values(|r: RuleRow| r.rule)
    }

    /// Number of rows.
    pub fn len(&self) -> (n: usize)
        ensures
            n == self.rows().len(),
    {
        self.rows.len()
    }

    /// The id of the row at `index`.
    pub fn id_at(&self, index: usize) -> (id: u64)
        requires
            index < self.rows().len(),
        ensures
            id == self.rows()[index as int].id,
    {
        self.rows[index].id
    }
}

/// An empty table.
pub fn new_model() -> (m: Model)
    ensures
        m.wf(),
        m.rows() == Seq::<RuleRow>::empty(),
{
    Model { rows: Vec::new() }
}

/// The rules of the table, in display order.
pub fn rules_of(model: &Model) -> (v: Vec<Rule>)
    ensures
        v@ == model.rules(),
{
    let n = model.rows.len();
    let mut v: Vec<Rule> = Vec::new();
    let mut i: usize = 0;
    while i < n
        invariant
            n == model.rows@.len(),
            i <= n,
            v@ == model.rows@.take(i as int).map_values(|r: RuleRow| r.rule),
        decreases n - i,
    {
        v.push(model.rows[i].rule.duplicate());
        i = i + 1;
        assert(v@ =~= model.rows@.take(i as int).map_values(|r: RuleRow| r.rule));
    }
    assert(model.rows@.take(n as int) =~= model.rows@);
    v
}

/// Whether the next id of a source stands above every id of a table (so the
/// source is the one the table took its ids from) and can still be handed out.
pub open spec fn fresh_for(rows: Seq<RuleRow>, next: u64) -> bool {
    next < u64::MAX && (rows.len() == 0 || rows.last().id < next)
}

/// A table with growing ids whose last id lies below a source's next id has
/// all its ids below it.
proof fn lemma_fresh_bounds_all(rows: Seq<RuleRow>, next: u64)
    requires
        ids_increasing(rows),
        fresh_for(rows, next),
    ensures
        ids_below(rows, next),
{
    assert forall|i: int| 0 <= i < rows.len() implies #[trigger] rows[i].id < next by {
        if i < rows.len() - 1 {
            assert(rows[i].id < rows[rows.len() - 1].id);
        }
    }
}

/// Appending a row with a source's next id to a table that took its ids from
/// that source keeps all ids distinct (still growing): the new id is none of
/// the old ones, and the source moves past all of them.
pub proof fn law_added_id_is_new(rows: Seq<RuleRow>, next: u64, rule: Rule)
    requires
        ids_increasing(rows),
        fresh_for(rows, next),
    ensures
        forall|i: int| 0 <= i < rows.len() ==> #[trigger] rows[i].id != next,
        ids_increasing(rows.push(RuleRow { id: next, rule })),
        ids_below(rows.push(RuleRow { id: next, rule }), (next + 1) as u64),
{
    lemma_fresh_bounds_all(rows, next);
    let pushed = rows.push(RuleRow { id: next, rule });
    assert forall|i: int| 0 <= i < pushed.len() implies #[trigger] pushed[i].id < next + 1 by {
        if i < rows.len() {
            assert(pushed[i] == rows[i]);
        }
    }
    assert forall|i: int, j: int| 0 <= i < j < pushed.len() implies pushed[i].id
        < pushed[j].id by {
        assert(pushed[i] == rows[i]);
        if j < rows.len() {
            assert(pushed[j] == rows[j]);
        }
    }
}

/// Ids handed out one after the other by the program's source grow, in
/// whatever tables they land: `add_rule` hands out the source's next id, moves
/// the source to one past it, and never moves it back, so an id handed out
/// later (from the source at `later_next`) is greater than an earlier one.
pub proof fn law_later_ids_are_greater(earlier: u64, later_next: u64, later: u64)
    requires
        earlier >= 1,
        later_next >= earlier + 1,
        later == later_next,
    ensures
        later > earlier >= 1,
{
}

/// Appends a row for `rule` with the next id from the program's id source
/// `ids`, and returns that id; the source moves past it, so every later row,
/// in this table or another, gets a greater id. Returns `None` and changes
/// nothing when the source cannot hand out another id or the table holds an
/// id that the source has not yet passed (it took its ids elsewhere).
pub fn add_rule(model: &mut Model, ids: &mut RowIds, rule: Rule) -> (r: Option<u64>)
    requires
        old(model).wf(),
    ensures
        final(model).wf(),
        final(ids).next() >= old(ids).next(),
        r is Some <==> fresh_for(old(model).rows(), old(ids).next()),
        r is None ==> final(model).rows() == old(model).rows() && final(ids).next() == old(
            ids,
        ).next(),
        r matches Some(id) ==> {
            &&& id >= 1
            &&& id == old(ids).next()
            &&& final(ids).next() == id + 1
            &&& forall|i: int|
                0 <= i < old(model).rows().len() ==> #[trigger] old(model).rows()[i].id != id
            &&& ids_below(final(model).rows(), final(ids).next())
            &&& final(model).rows() == old(model).rows().push(RuleRow { id, rule })
        },
{
    proof {
        use_type_invariant(&*ids);
    }
    let id = ids.next;
    if id == u64::MAX {
        return None;
    }
    let n = model.rows.len();
    if n > 0 && model.rows[n - 1].id >= id {
        return None;
    }
    proof {
        law_added_id_is_new(model.rows@, id, rule);
    }
    ids.next = id + 1;
    model.rows.push(RuleRow { id, rule });
    Some(id)
}

/// Takes the row with `id` out of the table and returns it; the other rows
/// keep their order. Returns `None` and changes nothing when no row has `id`.
pub fn remove_rule(model: &mut Model, id: u64) -> (r: Option<RuleRow>)
    requires
        old(model).wf(),
    ensures
        final(model).wf(),
        forall|b: u64| #[trigger] ids_below(old(model).rows(), b) ==> ids_below(final(model).rows(), b),
        final(model).rows() == rows_without(old(model).rows(), id),
        r == (if position(old(model).rows(), id) < 0 {
            None
        } else {
            Some(old(model).rows()[position(old(model).rows(), id)])
        }),
{
    let n = model.rows.len();
    let mut i: usize = 0;
    while i < n
        invariant
            n == model.rows@.len(),
            i <= n,
            model.rows@ == old(model).rows@,
            ids_increasing(model.rows@),
            forall|j: int| 0 <= j < i ==> model.rows@[j].id != id,
        decreases n - i,
    {
        if model.rows[i].id == id {
            proof {
                lemma_position_unique(model.rows@, id, i as int);
            }
            let ghost before = model.rows@;
            let row = model.rows.remove(i);
            proof {
                let rows = model.rows@;
                assert(rows == before.remove(i as int));
                assert forall|k: int| 0 <= k < rows.len() implies rows[k] == (if k < i {
                    before[k]
                } else {
                    before[k + 1]
                }) by {}
                assert forall|a: int, b: int| 0 <= a < b < rows.len() implies rows[a].id
                    < rows[b].id by {
                    let a2 = if a < i {
                        a
                    } else {
                        a + 1
                    };
                    let b2 = if b < i {
                        b
                    } else {
                        b + 1
                    };
                    assert(rows[a] == before[a2]);
                    assert(rows[b] == before[b2]);
                }
                assert forall|bound: u64| #[trigger] ids_below(before, bound) implies ids_below(
                    rows,
                    bound,
                ) by {
                    assert forall|k: int| 0 <= k < rows.len() implies #[trigger] rows[k].id
                        < bound by {
                        if k < i {
                            assert(rows[k] == before[k]);
                        } else {
                            assert(rows[k] == before[k + 1]);
                        }
                    }
                }
            }
            return Some(row);
        }
        i = i + 1;
    }
    proof {
        lemma_position_unique(model.rows@, id, -1);
    }
    None
}

/// Sets one edit field of the row with `id` to `val` (see `rule_field`);
/// changes nothing when no row has `id`.
pub fn model_set(model: &mut Model, id: u64, field: usize, val: &str)
    requires
        old(model).wf(),
    ensures
        final(model).wf(),
        forall|b: u64| #[trigger] ids_below(old(model).rows(), b) ==> ids_below(final(model).rows(), b),
        final(model).rows().len() == old(model).rows().len(),
        position(old(model).rows(), id) < 0 ==> final(model).rows() == old(model).rows(),
        forall|k: int|
            0 <= k < old(model).rows().len() && k != position(old(model).rows(), id) ==> (
            #[trigger] final(model).rows()[k]) == old(model).rows()[k],
        position(old(model).rows(), id) >= 0 ==> {
            let p = position(old(model).rows(), id);
            &&& final(model).rows()[p].id == id
            &&& forall|f: int|
                0 <= f <= 3 ==> rule_field(final(model).rows()[p].rule, f) == (if f == (if field
                    < 3 {
                    field as int
                } else {
                    3
                }) {
                    val@
                } else {
                    rule_field(old(model).rows()[p].rule, f)
                })
        },
{
    let n = model.rows.len();
    let mut i: usize = 0;
    while i < n
        invariant
            n == model.rows@.len(),
            i <= n,
            model.rows@ == old(model).rows@,
            ids_increasing(model.rows@),
            forall|j: int| 0 <= j < i ==> model.rows@[j].id != id,
        decreases n - i,
    {
        if model.rows[i].id == id {
            proof {
                lemma_position_unique(model.rows@, id, i as int);
            }
            let ghost before = model.rows@;
            let old_row = model.rows.remove(i);
            let RuleRow { id: row_id, rule } = old_row;
            let Rule { matcher, forward } = rule;
            let Host { addr: m_addr, path_prefix: m_prefix } = matcher;
            let Host { addr: f_addr, path_prefix: f_prefix } = forward;
            let text = val.to_owned();
            let new_rule = if field == 0 {
                Rule {
                    matcher: Host { addr: text, path_prefix: m_prefix },
                    forward: Host { addr: f_addr, path_prefix: f_prefix },
                }
            } else if field == 1 {
                Rule {
                    matcher: Host { addr: m_addr, path_prefix: text },
                    forward: Host { addr: f_addr, path_prefix: f_prefix },
                }
            } else if field == 2 {
                Rule {
                    matcher: Host { addr: m_addr, path_prefix: m_prefix },
                    forward: Host { addr: text, path_prefix: f_prefix },
                }
            } else {
                Rule {
                    matcher: Host { addr: m_addr, path_prefix: m_prefix },
                    forward: Host { addr: f_addr, path_prefix: text },
                }
            };
            model.rows.insert(i, RuleRow { id: row_id, rule: new_rule });
            proof {
                let rows = model.rows@;
                assert forall|k: int| 0 <= k < rows.len() && k != i implies rows[k] == before[k] by {}
                assert forall|k: int| 0 <= k < rows.len() implies #[trigger] rows[k].id
                    == before[k].id by {}
                assert forall|a: int, b: int| 0 <= a < b < rows.len() implies rows[a].id
                    < rows[b].id by {
                    assert(rows[a].id == before[a].id);
                    assert(rows[b].id == before[b].id);
                }
                assert forall|bound: u64| #[trigger] ids_below(before, bound) implies ids_below(
                    rows,
                    bound,
                ) by {
                    assert forall|k: int| 0 <= k < rows.len() implies #[trigger] rows[k].id
                        < bound by {
                        assert(rows[k].id == before[k].id);
                    }
                }
            }
            return;
        }
        i = i + 1;
    }
    proof {
        lemma_position_unique(model.rows@, id, -1);
    }
}

/// The offset of the row at `count` rows down (also the height of `count`
/// stacked rows), for rows `row_h` high with `row_gap` between them.
pub fn stacked_height(count: usize, row_h: i32, row_gap: i32) -> (h: i32)
    requires
        count <= i32::MAX,
        i32::MIN <= row_h + row_gap <= i32::MAX,
        i32::MIN <= count * (row_h + row_gap) <= i32::MAX,
    ensures
        h == count * (row_h + row_gap),
{
    let c = count as i32;
    let step = row_h + row_gap;
    c * step
}

/// Adding a row with a fresh id and then removing it by that id gives back
/// the table's rows.
pub proof fn law_remove_undoes_add(rows: Seq<RuleRow>, id: u64, rule: Rule)
    requires
        ids_increasing(rows),
        ids_below(rows, id),
    ensures
        rows_without(rows.push(RuleRow { id, rule }), id) == rows,
{
    let pushed = rows.push(RuleRow { id, rule });
    assert forall|j: int| 0 <= j < pushed.len() && j < rows.len() implies pushed[j].id != id by {
        assert(pushed[j] == rows[j]);
    }
    lemma_position_unique(pushed, id, rows.len() as int);
    assert(pushed.remove(rows.len() as int) =~= rows);
}

/// Removing a row leaves every other row in place and in order, and keeps
/// the ids unique; no row with the removed id is left.
pub proof fn law_remove_keeps_others(rows: Seq<RuleRow>, id: u64)
    requires
        ids_increasing(rows),
    ensures
        ids_increasing(rows_without(rows, id)),
        forall|k: int|
            0 <= k < rows.len() && rows[k].id != id ==> rows_without(rows, id).contains(
                #[trigger] rows[k],
            ),
        forall|r: RuleRow| #[trigger] rows_without(rows, id).contains(r) ==> r.id != id,
{
    lemma_position(rows, id);
    let p = position(rows, id);
    let out = rows_without(rows, id);
    if p >= 0 {
        assert forall|k: int| 0 <= k < out.len() implies out[k] == (if k < p {
            rows[k]
        } else {
            rows[k + 1]
        }) by {}
        assert forall|a: int, b: int| 0 <= a < b < out.len() implies out[a].id < out[b].id by {
            let a2 = if a < p {
                a
            } else {
                a + 1
            };
            let b2 = if b < p {
                b
            } else {
                b + 1
            };
            assert(out[a] == rows[a2]);
            assert(out[b] == rows[b2]);
        }
        assert forall|k: int| 0 <= k < rows.len() && rows[k].id != id implies out.contains(
            #[trigger] rows[k],
        ) by {
            if k < p {
                assert(out[k] == rows[k]);
            } else {
                assert(k != p);
                assert(out[k - 1] == rows[k]);
            }
        }
        assert forall|r: RuleRow| #[trigger] out.contains(r) implies r.id != id by {
            let k = choose|k: int| 0 <= k < out.len() && out[k] == r;
            if k < p {
                assert(out[k] == rows[k]);
                assert(rows[k].id < rows[p].id);
            } else {
                assert(out[k] == rows[k + 1]);
                assert(rows[p].id < rows[k + 1].id);
            }
        }
    } else {
        assert forall|k: int| 0 <= k < rows.len() && rows[k].id != id implies out.contains(
            #[trigger] rows[k],
        ) by {
            assert(out[k] == rows[k]);
        }
    }
}

/// Removing the same row a second time changes nothing.
pub proof fn law_remove_twice_is_remove_once(rows: Seq<RuleRow>, id: u64)
    requires
        ids_increasing(rows),
    ensures
        rows_without(rows_without(rows, id), id) == rows_without(rows, id),
{
    law_remove_keeps_others(rows, id);
    let out = rows_without(rows, id);
    assert forall|j: int| 0 <= j < out.len() implies out[j].id != id by {
        assert(out.contains(out[j]));
    }
    lemma_position_unique(out, id, -1);
}

} // verus!
