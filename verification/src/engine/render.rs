//! Plan rendering for people.

use crate::domain::plan::{
    Action, ActionView, FieldName, Plan, PlanItem, PlanItemView, PlanView, SkipReason,
};
use crate::text;
use vstd::prelude::*;

verus! {

/// The label of an action.
pub open spec fn label_of(a: ActionView) -> Seq<char> {
    match a {
        ActionView::NoOp => "NoOp"@,
        ActionView::Move { .. } => "Move"@,
        ActionView::Skip { .. } => "Skip"@,
        ActionView::Conflict { .. } => "Conflict"@,
        ActionView::Duplicate { .. } => "Duplicate"@,
        ActionView::NeedsReview { .. } => "Review"@,
    }
}

/// The label of an action.
pub fn action_label(a: &Action) -> (r: &'static str)
    ensures
        r@ == label_of(a.deep_view()),
{
    match a {
        Action::NoOp => "NoOp",
        Action::Move { .. } => "Move",
        Action::Skip { .. } => "Skip",
        Action::Conflict { .. } => "Conflict",
        Action::Duplicate { .. } => "Duplicate",
        Action::NeedsReview { .. } => "Review",
    }
}

/// The labels of actions, in the order of their texts.
pub open spec fn labels() -> Seq<Seq<char>> {
    seq!["Conflict"@, "Duplicate"@, "Move"@, "NoOp"@, "Review"@, "Skip"@]
}

/// The labels of actions, in the order of their texts.
fn label_list() -> (r: &'static [&'static str])
    ensures
        r.deep_view() == labels(),
{
    &["Conflict", "Duplicate", "Move", "NoOp", "Review", "Skip"]
}

/// How many items have an action with the given label.
pub open spec fn count_of(items: Seq<PlanItemView>, label: Seq<char>) -> nat
    decreases items.len(),
{
    if items.len() == 0 {
        0
    } else if label_of(items.last().action) == label {
        count_of(items.drop_last(), label) + 1
    } else {
        count_of(items.drop_last(), label)
    }
}

/// Counts the items that have an action with the given label.
fn count_label(items: &Vec<PlanItem>, label: &str) -> (r: usize)
    ensures
        r == count_of(items.deep_view(), label@),
{
    let ghost v = items.deep_view();
    let mut n: usize = 0;
    let mut i: usize = 0;
    while i < items.len()
        invariant
            i <= items@.len(),
            v == items.deep_view(),
            n <= i,
            n == count_of(v.take(i as int), label@),
        decreases items@.len() - i,
    {
        proof {
            assert(v.take(i + 1).drop_last() =~= v.take(i as int));
            assert(v.take(i + 1).last() == items@[i as int].deep_view());
        }
        if text::same_text(action_label(&items[i].action), label) {
            n = n + 1;
        }
        i = i + 1;
    }
    proof {
        assert(v.take(i as int) =~= v);
    }
    n
}

/// A text with spaces behind it up to a width.
pub open spec fn widened(s: Seq<char>, width: nat) -> Seq<char> {
    if s.len() >= width {
        s
    } else {
        s + Seq::new((width - s.len()) as nat, |i: int| ' ')
    }
}

/// A text with spaces behind it up to a width.
fn widen(s: &str, width: usize) -> (r: String)
    ensures
        r@ == widened(s@, width as nat),
{
    let mut out = text::to_chars(s);
    let ghost v = s@;
    while out.len() < width
        invariant
            v == s@,
            v.len() <= out@.len(),
            v.len() < width ==> out@.len() <= width,
            v.len() >= width ==> out@.len() == v.len(),
            out@ == v + Seq::new((out@.len() - v.len()) as nat, |i: int| ' '),
        decreases width - out@.len(),
    {
        let ghost n = (out@.len() - v.len()) as nat;
        out.push(' ');
        proof {
            assert(out@ =~= v + Seq::new((n + 1) as nat, |i: int| ' '));
        }
    }
    proof {
        assert(out@ =~= widened(v, width as nat));
    }
    text::to_text(&out)
}

/// The lines that count the actions: one for each label that occurs.
pub open spec fn count_lines(items: Seq<PlanItemView>, labels: Seq<Seq<char>>) -> Seq<Seq<char>>
    decreases labels.len(),
{
    if labels.len() == 0 {
        Seq::empty()
    } else {
        let rest = count_lines(items, labels.drop_last());
        let n = count_of(items, labels.last());
        if n > 0 {
            rest.push(widened(labels.last(), 12) + " "@ + text::decimal(n))
        } else {
            rest
        }
    }
}

/// Writes the lines that count the actions.
fn push_counts(lines: &mut Vec<Vec<char>>, items: &Vec<PlanItem>)
    ensures
        text::texts(final(lines)@) == text::texts(old(lines)@) + count_lines(
            items.deep_view(),
            labels(),
        ),
{
    let ghost before = text::texts(lines@);
    let ghost v = items.deep_view();
    let list = label_list();
    let ghost lv = labels();
    let mut i: usize = 0;
    proof {
        assert(before + count_lines(v, lv.take(0)) =~= before);
    }
    while i < list.len()
        invariant
            i <= list@.len(),
            list.deep_view() == lv,
            v == items.deep_view(),
            before == text::texts(old(lines)@),
            text::texts(lines@) == before + count_lines(v, lv.take(i as int)),
        decreases list@.len() - i,
    {
        let label = list[i];
        proof {
            assert(list.deep_view()[i as int] == label@);
            assert(lv.take(i + 1).drop_last() =~= lv.take(i as int));
            assert(lv.take(i + 1).last() == label@);
        }
        let n = count_label(items, label);
        if n > 0 {
            let line = widen(label, 12).concat(" ").concat(&text::decimal_text(n as u64));
            let ghost held = text::texts(lines@);
            lines.push(text::to_chars(&line));
            proof {
                assert(text::texts(lines@) =~= held.push(line@));
                assert(text::texts(lines@) =~= before + count_lines(v, lv.take(i + 1)));
            }
        }
        i = i + 1;
    }
    proof {
        assert(list.deep_view().len() == lv.len());
        assert(lv.take(i as int) =~= lv);
    }
}

impl SkipReason {
    /// The name of the reason.
    pub open spec fn name(self) -> Seq<char> {
        match self {
            SkipReason::Symlink => "Symlink"@,
            SkipReason::Ignored => "Ignored"@,
            SkipReason::Junk => "Junk"@,
            SkipReason::Unknown => "Unknown"@,
            SkipReason::Protected => "Protected"@,
            SkipReason::Conflict => "Conflict"@,
            SkipReason::Identical => "Identical"@,
        }
    }

    /// The name of the reason.
    pub fn as_str(self) -> (r: &'static str)
        ensures
            r@ == self.name(),
    {
        match self {
            SkipReason::Symlink => "Symlink",
            SkipReason::Ignored => "Ignored",
            SkipReason::Junk => "Junk",
            SkipReason::Unknown => "Unknown",
            SkipReason::Protected => "Protected",
            SkipReason::Conflict => "Conflict",
            SkipReason::Identical => "Identical",
        }
    }
}

/// The names of fields.
pub open spec fn names_of(fields: Seq<FieldName>) -> Seq<Seq<char>> {
    Seq::new(fields.len(), |i: int| fields[i].name())
}

/// The names of fields, with commas between them.
fn list_names(fields: &Vec<FieldName>) -> (r: String)
    ensures
        r@ == text::join(names_of(fields@), ", "@),
{
    let mut names: Vec<Vec<char>> = Vec::new();
    let mut i: usize = 0;
    while i < fields.len()
        invariant
            i <= fields@.len(),
            names@.len() == i,
            forall|k: int| 0 <= k < i ==> (#[trigger] names@[k])@ == fields@[k].name(),
        decreases fields@.len() - i,
    {
        names.push(text::to_chars(fields[i].as_str()));
        i = i + 1;
    }
    proof {
        assert(text::texts(names@) =~= names_of(fields@));
    }
    text::to_text(&text::joined(&names, &text::to_chars(", ")))
}

/// The line of an item.
pub open spec fn item_line(item: PlanItemView) -> Seq<char> {
    match item.action {
        ActionView::Move { from, to } => "MOVE   "@ + from.text() + " -> "@ + to.text(),
        ActionView::NoOp => "NOOP   "@ + item.source.text(),
        ActionView::Conflict { from, to, .. } => "CONFLICT "@ + from.text() + " -> "@ + to.text(),
        ActionView::Duplicate { from, identical_to } => "DUPLICATE "@ + from.text() + " (same as "@
            + identical_to.text() + ")"@,
        ActionView::NeedsReview { path, missing } => "REVIEW "@ + path.text() + " missing: "@
            + text::join(names_of(missing), ", "@),
        ActionView::Skip { reason } => "SKIP   "@ + item.source.text() + " ("@ + reason.name()
            + ")"@,
    }
}

/// Writes the line of an item.
fn line_of(item: &PlanItem) -> (r: String)
    ensures
        r@ == item_line(item.deep_view()),
{
    match &item.action {
        Action::Move { from, to } => "MOVE   ".to_string().concat(&from.to_text()).concat(
            " -> ",
        ).concat(&to.to_text()),
        Action::NoOp => "NOOP   ".to_string().concat(&item.source.to_text()),
        Action::Conflict { from, to, .. } => "CONFLICT ".to_string().concat(
            &from.to_text(),
        ).concat(" -> ").concat(&to.to_text()),
        Action::Duplicate { from, identical_to } => "DUPLICATE ".to_string().concat(
            &from.to_text(),
        ).concat(" (same as ").concat(&identical_to.to_text()).concat(")"),
        Action::NeedsReview { path, missing } => "REVIEW ".to_string().concat(
            &path.to_text(),
        ).concat(" missing: ").concat(&list_names(missing)),
        Action::Skip { reason } => "SKIP   ".to_string().concat(&item.source.to_text()).concat(
            " (",
        ).concat(reason.as_str()).concat(")"),
    }
}

/// The lines of items.
pub open spec fn item_lines(items: Seq<PlanItemView>) -> Seq<Seq<char>> {
    Seq::new(items.len(), |i: int| item_line(items[i]))
}

/// Writes the lines of items.
fn push_items(lines: &mut Vec<Vec<char>>, items: &Vec<PlanItem>)
    ensures
        text::texts(final(lines)@) == text::texts(old(lines)@) + item_lines(items.deep_view()),
{
    let ghost before = text::texts(lines@);
    let ghost v = items.deep_view();
    let mut i: usize = 0;
    proof {
        assert(before + item_lines(v.take(0)) =~= before);
    }
    while i < items.len()
        invariant
            i <= items@.len(),
            v == items.deep_view(),
            before == text::texts(old(lines)@),
            text::texts(lines@) == before + item_lines(v.take(i as int)),
        decreases items@.len() - i,
    {
        let line = line_of(&items[i]);
        let ghost held = text::texts(lines@);
        lines.push(text::to_chars(&line));
        proof {
            assert(text::texts(lines@) =~= held.push(line@));
            assert(text::texts(lines@) =~= before + item_lines(v.take(i + 1)));
        }
        i = i + 1;
    }
    proof {
        assert(v.take(i as int) =~= v);
    }
}

/// The lines of a plan: what it is for, the digest of the configuration, the
/// counts of the actions and, where they are asked for, the items.
pub open spec fn plan_lines(p: PlanView, verbose: bool) -> Seq<Seq<char>> {
    let head = seq![
        "Plan for "@ + p.root.text() + " ("@ + p.kind.name() + ") — "@ + text::decimal(
            p.items.len(),
        ) + " items"@,
        "config digest: "@ + p.config_digest,
        Seq::<char>::empty(),
    ];
    let counted = (head + count_lines(p.items, labels())).push(Seq::empty());
    if verbose {
        counted + item_lines(p.items)
    } else {
        counted
    }
}

/// Render a plan as a diff-style human-readable table.
pub fn render_text(plan: &Plan, verbose: bool) -> (r: String)
    ensures
        r@ == text::join(plan_lines(plan.deep_view(), verbose), "\n"@),
{
    let ghost p = plan.deep_view();
    let mut lines: Vec<Vec<char>> = Vec::new();
    let first = "Plan for ".to_string().concat(&plan.root.to_text()).concat(" (").concat(
        plan.kind.as_str(),
    ).concat(") — ").concat(&text::decimal_text(plan.items.len() as u64)).concat(" items");
    lines.push(text::to_chars(&first));
    let second = "config digest: ".to_string().concat(&plan.config_digest);
    lines.push(text::to_chars(&second));
    lines.push(Vec::new());
    proof {
        assert(text::texts(lines@) =~= seq![
            "Plan for "@ + p.root.text() + " ("@ + p.kind.name() + ") — "@ + text::decimal(
                p.items.len(),
            ) + " items"@,
            "config digest: "@ + p.config_digest,
            Seq::<char>::empty(),
        ]);
    }
    push_counts(&mut lines, &plan.items);
    let ghost held = text::texts(lines@);
    lines.push(Vec::new());
    proof {
        assert(text::texts(lines@) =~= held.push(Seq::empty()));
    }
    if verbose {
        push_items(&mut lines, &plan.items);
    }
    proof {
        assert(text::texts(lines@) =~= plan_lines(p, verbose));
    }
    text::to_text(&text::joined(&lines, &text::to_chars("\n")))
}

/// What a line says of an item: the word for what is to be done comes first, a
/// move goes from where the file is to where it will be, and what stays is named
/// with the reason.
pub open spec fn tells_of(line: Seq<char>, item: PlanItemView) -> bool {
    match item.action {
        ActionView::Move { from, to } => line == "MOVE   "@ + from.text() + " -> "@ + to.text(),
        ActionView::NoOp => line == "NOOP   "@ + item.source.text(),
        ActionView::Conflict { from, to, .. } => line == "CONFLICT "@ + from.text() + " -> "@
            + to.text(),
        ActionView::Duplicate { from, identical_to } => line == "DUPLICATE "@ + from.text()
            + " (same as "@ + identical_to.text() + ")"@,
        ActionView::NeedsReview { path, missing } => line == "REVIEW "@ + path.text()
            + " missing: "@ + text::join(
            Seq::new(missing.len(), |i: int| missing[i].name()),
            ", "@,
        ),
        ActionView::Skip { reason } => exists|why: Seq<char>| #[trigger]
            names_reason(why, reason) && line == "SKIP   "@ + item.source.text() + " ("@ + why
                + ")"@,
    }
}

/// Whether a text is the word for a reason.
pub open spec fn names_reason(s: Seq<char>, reason: SkipReason) -> bool {
    match reason {
        SkipReason::Symlink => s == "Symlink"@,
        SkipReason::Ignored => s == "Ignored"@,
        SkipReason::Junk => s == "Junk"@,
        SkipReason::Unknown => s == "Unknown"@,
        SkipReason::Protected => s == "Protected"@,
        SkipReason::Conflict => s == "Conflict"@,
        SkipReason::Identical => s == "Identical"@,
    }
}

/// What is shown of a plan is what applying it would do: the text with the items
/// has a line for each of them, and for one that is to be moved the path of the
/// file stands before the arrow and its destination behind it.
pub proof fn law_every_item_has_its_line(p: PlanView, i: int)
    requires
        0 <= i < p.items.len(),
    ensures
        exists|line: Seq<char>| #[trigger]
            text::has_line(text::join(plan_lines(p, true), "\n"@), line) && tells_of(
                line,
                p.items[i],
            ),
        p.items[i].action matches ActionView::Move { from, to } ==> text::has_line(
            text::join(plan_lines(p, true), "\n"@),
            "MOVE   "@ + from.text() + " -> "@ + to.text(),
        ),
{
    let lines = plan_lines(p, true);
    let k = lines.len() - p.items.len() + i;
    let line = item_line(p.items[i]);
    assert(lines[k] == line);
    text::lemma_joined_has_line(lines, k);
    match p.items[i].action {
        ActionView::NeedsReview { missing, .. } => {
            assert(names_of(missing) =~= Seq::new(missing.len(), |i: int| missing[i].name()));
        },
        ActionView::Skip { reason } => {
            assert(names_reason(reason.name(), reason));
        },
        _ => {},
    }
    assert(tells_of(line, p.items[i]));
}

/// The lines of a plan before those of its items say what it is for, under which
/// configuration, and how many items are to be moved.
pub proof fn law_plan_text_tells_root_and_moves(p: PlanView, verbose: bool)
    ensures
        text::has_line(
            text::join(plan_lines(p, verbose), "\n"@),
            "Plan for "@ + p.root.text() + " ("@ + p.kind.name() + ") — "@ + text::decimal(
                p.items.len(),
            ) + " items"@,
        ),
        text::has_line(
            text::join(plan_lines(p, verbose), "\n"@),
            "config digest: "@ + p.config_digest,
        ),
        moves_in(p.items) > 0 ==> text::has_line(
            text::join(plan_lines(p, verbose), "\n"@),
            "Move         "@ + text::decimal(moves_in(p.items)),
        ),
{
    let lines = plan_lines(p, verbose);
    text::lemma_joined_has_line(lines, 0);
    text::lemma_joined_has_line(lines, 1);
    reveal_strlit("Conflict");
    reveal_strlit("Duplicate");
    reveal_strlit("Move");
    reveal_strlit("NoOp");
    reveal_strlit("Review");
    reveal_strlit("Skip");
    reveal_strlit(" ");
    reveal_strlit("Move         ");
    let all = labels();
    lemma_moves_are_counted(p.items);
    if moves_in(p.items) > 0 {
        let upto = all.take(3);
        assert(upto.last() == "Move"@);
        let line = widened("Move"@, 12) + " "@ + text::decimal(moves_in(p.items));
        let first = count_lines(p.items, upto);
        assert(first.last() == line);
        lemma_more_counts(p.items, all, 3);
        let counts = count_lines(p.items, all);
        let k = first.len() - 1;
        assert(counts[k] == line);
        assert(lines[3 + k] == line);
        text::lemma_joined_has_line(lines, 3 + k);
        assert(widened("Move"@, 12) + " "@ =~= "Move         "@);
    }
}

/// How many items are to be moved.
pub open spec fn moves_in(items: Seq<PlanItemView>) -> nat
    decreases items.len(),
{
    if items.len() == 0 {
        0
    } else {
        moves_in(items.drop_last()) + if items.last().action is Move {
            1nat
        } else {
            0nat
        }
    }
}

/// The items to be moved are those with the label of a move.
proof fn lemma_moves_are_counted(items: Seq<PlanItemView>)
    ensures
        count_of(items, "Move"@) == moves_in(items),
    decreases items.len(),
{
    reveal_strlit("Conflict");
    reveal_strlit("Duplicate");
    reveal_strlit("Move");
    reveal_strlit("NoOp");
    reveal_strlit("Review");
    reveal_strlit("Skip");
    if items.len() > 0 {
        lemma_moves_are_counted(items.drop_last());
        let a = items.last().action;
        assert(label_of(a) == "Move"@ <==> a is Move) by {
            assert("NoOp"@[0] == 'N' && "Move"@[0] == 'M' && "Skip"@[0] == 'S');
            assert("Conflict"@[0] == 'C' && "Duplicate"@[0] == 'D' && "Review"@[0] == 'R');
        }
    }
}

/// The counts of the first labels come first.
proof fn lemma_more_counts(items: Seq<PlanItemView>, all: Seq<Seq<char>>, n: int)
    requires
        0 <= n <= all.len(),
    ensures
        count_lines(items, all.take(n)).len() <= count_lines(items, all).len(),
        forall|k: int|
            0 <= k < count_lines(items, all.take(n)).len() ==> #[trigger] count_lines(
                items,
                all,
            )[k] == count_lines(items, all.take(n))[k],
    decreases all.len(),
{
    if n < all.len() {
        lemma_more_counts(items, all.drop_last(), n);
        assert(all.drop_last().take(n) =~= all.take(n));
    } else {
        assert(all.take(n) =~= all);
    }
}

} // verus!
