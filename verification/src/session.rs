//! The dialogue about what to do with the groups.

use crate::actions::{
    all_plans, group_choice, group_files, group_plan, main_choice, parse_group_choice,
    parse_main_choice, plans_of, process_groups, process_single_group, Choice, FileAction,
    PlannedAction, Selection,
};
use crate::duplicates::DuplicateGroup;
use vstd::prelude::*;

verus! {

/// What is asked next.
#[derive(Clone, Copy, PartialEq, Eq, Structural, Debug)]
pub enum Prompt {
    /// What to do with all groups.
    Main,
    /// What to do with the group of this number.
    Group(usize),
    /// Nothing: the dialogue is over.
    Done,
}

/// What follows from an answer.
pub enum Reply {
    /// The files stay.
    Kept,
    /// The files of these groups are dealt with.
    Process(Vec<Vec<PlannedAction>>),
    /// The groups are asked about one by one.
    OneByOne,
    /// There is no file of that number.
    BadNumber,
    /// The answer means nothing.
    BadInput,
}

/// What a [`Reply`] holds.
pub enum ReplyView {
    Kept,
    Process(Seq<Seq<PlannedAction>>),
    OneByOne,
    BadNumber,
    BadInput,
}

impl View for Reply {
    type V = ReplyView;

    open spec fn view(&self) -> ReplyView {
        match self {
            Reply::Kept => ReplyView::Kept,
            Reply::Process(plans) => ReplyView::Process(plans_of(plans@)),
            Reply::OneByOne => ReplyView::OneByOne,
            Reply::BadNumber => ReplyView::BadNumber,
            Reply::BadInput => ReplyView::BadInput,
        }
    }
}

/// What is asked after the question about group `g` of `count`.
pub open spec fn after_group(g: usize, count: nat) -> Prompt {
    if g + 1 < count {
        Prompt::Group((g + 1) as usize)
    } else {
        Prompt::Done
    }
}

/// What follows from an answer to the question about all groups.
pub open spec fn main_answer(input: Seq<char>, groups: Seq<Seq<usize>>) -> (Prompt, ReplyView) {
    match main_choice(input) {
        Choice::KeepAll => (Prompt::Done, ReplyView::Kept),
        Choice::Apply(selection) => (
            Prompt::Done,
            ReplyView::Process(all_plans(groups, selection)),
        ),
        Choice::EachGroup => (
            if groups.len() > 0 {
                Prompt::Group(0)
            } else {
                Prompt::Done
            },
            ReplyView::OneByOne,
        ),
        Choice::BadNumber => (Prompt::Main, ReplyView::BadNumber),
        Choice::BadInput => (Prompt::Main, ReplyView::BadInput),
    }
}

/// What follows from an answer to the question about group `g`.
pub open spec fn group_answer(
    g: usize,
    input: Seq<char>,
    groups: Seq<Seq<usize>>,
) -> (Prompt, ReplyView) {
    let files = groups[g as int];
    match group_choice(input, files.len()) {
        Choice::KeepAll => (after_group(g, groups.len()), ReplyView::Kept),
        Choice::Apply(selection) => (
            after_group(g, groups.len()),
            ReplyView::Process(seq![group_plan(files, selection)]),
        ),
        Choice::BadNumber => (Prompt::Group(g), ReplyView::BadNumber),
        _ => (Prompt::Group(g), ReplyView::BadInput),
    }
}

/// What follows from an answer.
pub open spec fn answered(
    prompt: Prompt,
    input: Seq<char>,
    groups: Seq<Seq<usize>>,
) -> (Prompt, ReplyView) {
    match prompt {
        Prompt::Main => main_answer(input, groups),
        Prompt::Group(g) => group_answer(g, input, groups),
        Prompt::Done => (Prompt::Done, ReplyView::Kept),
    }
}

/// Whether a question is about a group that there is.
pub open spec fn prompt_fits(prompt: Prompt, count: nat) -> bool {
    prompt matches Prompt::Group(g) ==> g < count
}

/// Takes in the answer to a question: what is asked next, and what is done now.
pub fn answer(prompt: Prompt, input: &str, groups: &Vec<DuplicateGroup>) -> (r: (Prompt, Reply))
    requires
        prompt_fits(prompt, groups@.len()),
    ensures
        (r.0, r.1@) == answered(prompt, input@, group_files(groups@)),
        prompt_fits(r.0, groups@.len()),
{
    match prompt {
        Prompt::Main => match parse_main_choice(input) {
            Choice::KeepAll => (Prompt::Done, Reply::Kept),
            Choice::Apply(selection) => (
                Prompt::Done,
                Reply::Process(process_groups(groups, selection)),
            ),
            Choice::EachGroup => if groups.len() > 0 {
                (Prompt::Group(0), Reply::OneByOne)
            } else {
                (Prompt::Done, Reply::OneByOne)
            },
            Choice::BadNumber => (Prompt::Main, Reply::BadNumber),
            Choice::BadInput => (Prompt::Main, Reply::BadInput),
        },
        Prompt::Group(g) => {
            let files = &groups[g].files;
            let next: Prompt = if g < groups.len() - 1 {
                Prompt::Group(g + 1)
            } else {
                Prompt::Done
            };
            match parse_group_choice(input, files.len()) {
                Choice::KeepAll => (next, Reply::Kept),
                Choice::Apply(selection) => {
                    let mut plans: Vec<Vec<PlannedAction>> = Vec::new();
                    plans.push(process_single_group(files, selection));
                    assert(plans_of(plans@) =~= seq![group_plan(files@, selection)]);
                    (next, Reply::Process(plans))
                },
                Choice::BadNumber => (Prompt::Group(g), Reply::BadNumber),
                _ => (Prompt::Group(g), Reply::BadInput),
            }
        },
        Prompt::Done => (Prompt::Done, Reply::Kept),
    }
}

/// How many files a plan keeps.
pub open spec fn kept(plan: Seq<PlannedAction>) -> nat
    decreases plan.len(),
{
    if plan.len() == 0 {
        0
    } else if plan.last().action == FileAction::Keep {
        kept(plan.drop_last()) + 1
    } else {
        kept(plan.drop_last())
    }
}

/// Whether an answer asks to delete all files.
pub open spec fn asks_to_delete_all(input: Seq<char>) -> bool {
    crate::text::trimmed(input) == seq!['d'] || crate::text::trimmed(input) == seq!['D']
}

/// A plan keeps the selected file of a group and no other; without a selected
/// file it keeps none.
proof fn lemma_kept(files: Seq<usize>, selection: Selection, n: nat)
    requires
        n <= files.len(),
    ensures
        kept(group_plan(files, selection).take(n as int)) == (if selection.keep_selected
            && selection.keep_index is Some && selection.keep_index->0 < n {
            1nat
        } else {
            0nat
        }),
    decreases n,
{
    let plan = group_plan(files, selection);
    if n > 0 {
        lemma_kept(files, selection, (n - 1) as nat);
        assert(plan.take(n as int).drop_last() =~= plan.take(n - 1));
        assert(plan.take(n as int).last() == plan[n - 1]);
    }
}

/// A plan that follows from an answer keeps exactly one file, unless the answer
/// asks to delete all: then it keeps none. It names the files of the group in
/// their order, each once.
pub proof fn one_file_survives(prompt: Prompt, input: Seq<char>, groups: Seq<Seq<usize>>, p: int)
    requires
        prompt_fits(prompt, groups.len()),
        forall|g: int| 0 <= g < groups.len() ==> (#[trigger] groups[g]).len() > 1,
        answered(prompt, input, groups).1 matches ReplyView::Process(plans) && 0 <= p
            < plans.len(),
    ensures
        answered(prompt, input, groups).1 matches ReplyView::Process(plans) ==> {
            let files = match prompt {
                Prompt::Group(g) => groups[g as int],
                _ => groups[p],
            };
            &&& plans[p].len() == files.len()
            &&& forall|i: int| 0 <= i < files.len() ==> (#[trigger] plans[p][i]).file == files[i]
            &&& kept(plans[p]) == (if asks_to_delete_all(input) {
                0nat
            } else {
                1nat
            })
        },
{
    if let ReplyView::Process(plans) = answered(prompt, input, groups).1 {
        let files = match prompt {
            Prompt::Group(g) => groups[g as int],
            _ => groups[p],
        };
        let selection = match prompt {
            Prompt::Group(g) => group_choice(input, files.len())->Apply_0,
            _ => main_choice(input)->Apply_0,
        };
        assert(plans[p] == group_plan(files, selection));
        lemma_kept(files, selection, files.len());
        assert(plans[p].take(files.len() as int) =~= plans[p]);
        let t = crate::text::trimmed(input);
        assert(seq!['d'][0] == 'd' && seq!['D'][0] == 'D' && seq!['m'][0] == 'm' && seq!['M'][0]
            == 'M' && seq!['1'][0] == '1');
    }
}

/// An answer that means nothing is asked for again; any other moves the dialogue
/// on, from group to group in their order, and never back.
pub proof fn dialogue_moves_on(prompt: Prompt, input: Seq<char>, groups: Seq<Seq<usize>>)
    requires
        prompt_fits(prompt, groups.len()),
    ensures
        ({
            let (next, reply) = answered(prompt, input, groups);
            let bad = reply is BadInput || reply is BadNumber;
            match prompt {
                Prompt::Main => if bad {
                    next == Prompt::Main
                } else {
                    next == Prompt::Done || (next == Prompt::Group(0) && reply is OneByOne)
                },
                Prompt::Group(g) => if bad {
                    next == prompt
                } else {
                    next == (if g + 1 == groups.len() {
                        Prompt::Done
                    } else {
                        Prompt::Group((g + 1) as usize)
                    })
                },
                Prompt::Done => next == Prompt::Done,
            }
        }),
{
}

} // verus!
