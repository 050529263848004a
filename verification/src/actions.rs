//! What the user chooses, and what it means for each file.

use crate::duplicates::DuplicateGroup;
use crate::text::{chars_of, read_unsigned, trim, trimmed, unsigned};
use vstd::prelude::*;

verus! {

/// What is done with duplicates.
#[derive(Clone, Copy, PartialEq, Eq, Structural, Debug)]
pub enum Operation {
    Delete,
    Move,
}

/// What is done with one file.
#[derive(Clone, Copy, PartialEq, Eq, Structural, Debug)]
pub enum FileAction {
    Keep,
    Delete,
    Move,
}

/// A file, by its place in the list of files, and what is done with it.
#[derive(Clone, Copy, PartialEq, Eq, Structural, Debug)]
pub struct PlannedAction {
    pub file: usize,
    pub action: FileAction,
}

/// What is done with the files of a group, and which of them is spared.
#[derive(Clone, Copy, PartialEq, Eq, Structural, Debug)]
pub struct Selection {
    pub operation: Operation,
    pub keep_index: Option<usize>,
    pub keep_selected: bool,
}

/// What a selection means for the file at `index` of a group.
pub open spec fn action_at(selection: Selection, index: int) -> FileAction {
    if selection.keep_selected && selection.keep_index is Some && selection.keep_index->0
        == index {
        FileAction::Keep
    } else {
        match selection.operation {
            Operation::Delete => FileAction::Delete,
            Operation::Move => FileAction::Move,
        }
    }
}

/// What a selection means for the files of a group, one by one.
pub open spec fn group_plan(files: Seq<usize>, selection: Selection) -> Seq<PlannedAction> {
    Seq::new(
        files.len(),
        |i: int| PlannedAction { file: files[i], action: action_at(selection, i) },
    )
}

/// The plans of groups.
pub open spec fn plans_of(plans: Seq<Vec<PlannedAction>>) -> Seq<Seq<PlannedAction>> {
    plans.map_values(|plan: Vec<PlannedAction>| plan@)
}

/// What a selection means for every group.
pub open spec fn all_plans(
    groups: Seq<Seq<usize>>,
    selection: Selection,
) -> Seq<Seq<PlannedAction>> {
    groups.map_values(|files: Seq<usize>| group_plan(files, selection))
}

/// The files of each group.
pub open spec fn group_files(groups: Seq<DuplicateGroup>) -> Seq<Seq<usize>> {
    groups.map_values(|group: DuplicateGroup| group.files@)
}

/// Plans what is done with the files of a group.
pub fn process_single_group(files: &Vec<usize>, selection: Selection) -> (r: Vec<PlannedAction>)
    ensures
        r@ == group_plan(files@, selection),
{
    let mut r: Vec<PlannedAction> = Vec::new();
    for i in 0..files.len()
        invariant
            r@ == group_plan(files@, selection).take(i as int),
    {
        let spared: bool = selection.keep_selected && match selection.keep_index {
            Some(index) => index == i,
            None => false,
        };
        let action: FileAction = if spared {
            FileAction::Keep
        } else {
            match selection.operation {
                Operation::Delete => FileAction::Delete,
                Operation::Move => FileAction::Move,
            }
        };
        r.push(PlannedAction { file: files[i], action });
        assert(r@ =~= group_plan(files@, selection).take(i + 1));
    }
    assert(r@ =~= group_plan(files@, selection));
    r
}

/// Plans what is done with the files of every group.
pub fn process_groups(groups: &Vec<DuplicateGroup>, selection: Selection) -> (r: Vec<
    Vec<PlannedAction>,
>)
    ensures
        plans_of(r@) == all_plans(group_files(groups@), selection),
{
    let mut r: Vec<Vec<PlannedAction>> = Vec::new();
    for g in 0..groups.len()
        invariant
            r.len() == g,
            forall|k: int|
                0 <= k < g ==> (#[trigger] r[k])@ == group_plan(groups[k].files@, selection),
    {
        r.push(process_single_group(&groups[g].files, selection));
    }
    assert(plans_of(r@) =~= all_plans(group_files(groups@), selection));
    r
}

/// What an answer means.
#[derive(Clone, Copy, PartialEq, Eq, Structural, Debug)]
pub enum Choice {
    /// All files stay.
    KeepAll,
    /// Something is done with the files.
    Apply(Selection),
    /// Every group is asked about by itself.
    EachGroup,
    /// There is no file of that number.
    BadNumber,
    /// The answer means nothing.
    BadInput,
}

/// Deleting all files of a group.
pub open spec fn delete_all() -> Selection {
    Selection { operation: Operation::Delete, keep_index: None, keep_selected: false }
}

/// Sparing the file at `index` of a group, and doing something with the others.
pub open spec fn all_but(operation: Operation, index: usize) -> Selection {
    Selection { operation, keep_index: Some(index), keep_selected: true }
}

/// What an answer to the question about all groups means.
pub open spec fn main_choice(input: Seq<char>) -> Choice {
    let answer = trimmed(input);
    if answer == seq!['0'] {
        Choice::KeepAll
    } else if answer == seq!['d'] || answer == seq!['D'] {
        Choice::Apply(delete_all())
    } else if answer == seq!['m'] || answer == seq!['M'] {
        Choice::Apply(all_but(Operation::Move, 0))
    } else if answer == seq!['1'] {
        Choice::Apply(all_but(Operation::Delete, 0))
    } else if answer == seq!['i'] || answer == seq!['I'] {
        Choice::EachGroup
    } else {
        Choice::BadInput
    }
}

/// The index of the file that `m` and a number from 1 to `len` spares.
pub open spec fn move_selection(answer: Seq<char>, len: nat) -> Option<nat> {
    let number = unsigned(answer.drop_first(), usize::MAX as nat);
    if answer.len() >= 2 && answer.first() == 'm' && number is Some && 1 <= number->0 <= len {
        Some((number->0 - 1) as nat)
    } else {
        None
    }
}

/// What an answer to the question about a group of `len` files means.
pub open spec fn group_choice(input: Seq<char>, len: nat) -> Choice {
    let answer = trimmed(input);
    let number = unsigned(answer, usize::MAX as nat);
    let moved = move_selection(answer, len);
    if answer == seq!['0'] {
        Choice::KeepAll
    } else if answer == seq!['d'] || answer == seq!['D'] {
        Choice::Apply(delete_all())
    } else if answer == seq!['m'] || answer == seq!['M'] {
        Choice::Apply(all_but(Operation::Move, 0))
    } else if number is Some {
        if 1 <= number->0 <= len {
            Choice::Apply(all_but(Operation::Delete, (number->0 - 1) as usize))
        } else {
            Choice::BadNumber
        }
    } else if moved is Some {
        Choice::Apply(all_but(Operation::Move, moved->0 as usize))
    } else {
        Choice::BadInput
    }
}

/// The only character of a text that has one.
fn only_char(chars: &Vec<char>) -> (r: Option<char>)
    ensures
        match r {
            Some(c) => chars@ == seq![c],
            None => chars@.len() != 1,
        },
{
    if chars.len() == 1 {
        assert(chars@ =~= seq![chars[0]]);
        Some(chars[0])
    } else {
        None
    }
}

/// Reads an answer to the question about all groups.
pub fn parse_main_choice(input: &str) -> (r: Choice)
    ensures
        r == main_choice(input@),
{
    let chars = chars_of(trim(input));
    match only_char(&chars) {
        Some(c) => {
            assert forall|x: char| (chars@ == #[trigger] seq![x]) == (c == x) by {
                assert(seq![x][0] == x);
            }
            match c {
                '0' => Choice::KeepAll,
                'd' | 'D' => Choice::Apply(
                    Selection {
                        operation: Operation::Delete,
                        keep_index: None,
                        keep_selected: false,
                    },
                ),
                'm' | 'M' => Choice::Apply(
                    Selection {
                        operation: Operation::Move,
                        keep_index: Some(0),
                        keep_selected: true,
                    },
                ),
                '1' => Choice::Apply(
                    Selection {
                        operation: Operation::Delete,
                        keep_index: Some(0),
                        keep_selected: true,
                    },
                ),
                'i' | 'I' => Choice::EachGroup,
                _ => Choice::BadInput,
            }
        },
        None => Choice::BadInput,
    }
}

/// Reads `m` and a number from 1 to `len` as the index of the file to spare.
pub fn parse_move_selection(input: &str, len: usize) -> (r: Option<usize>)
    ensures
        match r {
            Some(index) => move_selection(input@, len as nat) == Some(index as nat) && index < len,
            None => move_selection(input@, len as nat) is None,
        },
{
    let chars = chars_of(input);
    if chars.len() < 2 || chars[0] != 'm' {
        return None;
    }
    assert(chars@.subrange(1, chars.len() as int) =~= input@.drop_first());
    match read_unsigned(&chars, 1, chars.len(), usize::MAX as u64) {
        Some(number) => if number == 0 || number > len as u64 {
            None
        } else {
            Some((number - 1) as usize)
        },
        None => None,
    }
}

/// Reads an answer to the question about a group of `len` files.
pub fn parse_group_choice(input: &str, len: usize) -> (r: Choice)
    ensures
        r == group_choice(input@, len as nat),
{
    let answer: &str = trim(input);
    let chars = chars_of(answer);
    match only_char(&chars) {
        Some(c) => {
            assert forall|x: char| (chars@ == #[trigger] seq![x]) == (c == x) by {
                assert(seq![x][0] == x);
            }
            if c == '0' {
                return Choice::KeepAll;
            }
            if c == 'd' || c == 'D' {
                return Choice::Apply(
                    Selection {
                        operation: Operation::Delete,
                        keep_index: None,
                        keep_selected: false,
                    },
                );
            }
            if c == 'm' || c == 'M' {
                return Choice::Apply(
                    Selection {
                        operation: Operation::Move,
                        keep_index: Some(0),
                        keep_selected: true,
                    },
                );
            }
        },
        None => {},
    }
    assert(chars@.subrange(0, chars.len() as int) =~= answer@);
    match read_unsigned(&chars, 0, chars.len(), usize::MAX as u64) {
        Some(number) => {
            if number >= 1 && number <= len as u64 {
                return Choice::Apply(
                    Selection {
                        operation: Operation::Delete,
                        keep_index: Some((number - 1) as usize),
                        keep_selected: true,
                    },
                );
            }
            return Choice::BadNumber;
        },
        None => {},
    }
    match parse_move_selection(answer, len) {
        Some(index) => Choice::Apply(
            Selection { operation: Operation::Move, keep_index: Some(index), keep_selected: true },
        ),
        None => Choice::BadInput,
    }
}

} // verus!
