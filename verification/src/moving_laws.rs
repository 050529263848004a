//! What carrying out plans does to the files.

use crate::actions::{
    action_at, all_but, all_plans, delete_all, group_plan, FileAction, Operation, PlannedAction,
    Selection,
};
use crate::destination::{destination, destination_is_free};
use crate::duplicates::members;
use crate::duplicates_laws::{
    disjoint_lists, lists_without_repeats, members_of_lists, some_list_has,
};
use crate::grouping::ints;
use crate::order::{mapped_multisets, same_elements_once, set_in_sequence};
use vstd::multiset::Multiset;
use vstd::prelude::*;

verus! {

/// The files that plans are about.
pub struct Disk {
    /// What the found files hold, each by its place in the list of files. None
    /// of them is in the directory that files are moved to.
    pub found: Map<int, Seq<u8>>,
    /// What lies in that directory, by name.
    pub moved: Map<Seq<u8>, Seq<u8>>,
}

/// What is there once a step is carried out. `names` are the names of the found
/// files.
pub open spec fn after_step(disk: Disk, names: Seq<Seq<u8>>, step: PlannedAction) -> Disk {
    let file = step.file as int;
    match step.action {
        FileAction::Keep => disk,
        FileAction::Delete => Disk { found: disk.found.remove(file), moved: disk.moved },
        FileAction::Move => Disk {
            found: disk.found.remove(file),
            moved: disk.moved.insert(
                destination(names[file], disk.moved.dom()),
                disk.found[file],
            ),
        },
    }
}

/// What is there once steps are carried out in turn.
pub open spec fn after_steps(disk: Disk, names: Seq<Seq<u8>>, steps: Seq<PlannedAction>) -> Disk
    decreases steps.len(),
{
    if steps.len() == 0 {
        disk
    } else {
        after_step(after_steps(disk, names, steps.drop_last()), names, steps.last())
    }
}

/// The name that the file of step `k` gets where it is moved to.
pub open spec fn place_of(
    disk: Disk,
    names: Seq<Seq<u8>>,
    steps: Seq<PlannedAction>,
    k: int,
) -> Seq<u8> {
    destination(names[steps[k].file as int], after_steps(disk, names, steps.take(k)).moved.dom())
}

/// Steps that can be carried out: each is about a found file, and no two about
/// the same.
pub open spec fn can_be_carried_out(disk: Disk, steps: Seq<PlannedAction>) -> bool {
    &&& disk.found.dom().finite()
    &&& disk.moved.dom().finite()
    &&& forall|k: int|
        0 <= k < steps.len() ==> disk.found.contains_key((#[trigger] steps[k]).file as int)
    &&& forall|k: int, l: int|
        #![trigger steps[k], steps[l]]
        0 <= k < l < steps.len() ==> steps[k].file != steps[l].file
}

/// A step is about this file.
pub open spec fn has_step(steps: Seq<PlannedAction>, file: int) -> bool {
    exists|k: int| 0 <= k < steps.len() && (#[trigger] steps[k]).file == file
}

proof fn lemma_fewer_steps(disk: Disk, steps: Seq<PlannedAction>)
    requires
        can_be_carried_out(disk, steps),
        steps.len() > 0,
    ensures
        can_be_carried_out(disk, steps.drop_last()),
        !has_step(steps.drop_last(), steps.last().file as int),
{
    let fewer = steps.drop_last();
    assert forall|k: int| 0 <= k < fewer.len() implies disk.found.contains_key(
        (#[trigger] fewer[k]).file as int,
    ) by {
        assert(fewer[k] == steps[k]);
    }
    assert forall|k: int, l: int|
        #![trigger fewer[k], fewer[l]]
        0 <= k < l < fewer.len() implies fewer[k].file != fewer[l].file by {
        assert(steps[k].file != steps[l].file);
    }
    if has_step(fewer, steps.last().file as int) {
        let k = choose|k: int|
            0 <= k < fewer.len() && (#[trigger] fewer[k]).file == steps.last().file as int;
        assert(steps[k].file != steps[steps.len() - 1].file);
    }
}

/// Carrying out steps overwrites nothing. What was in the directory before stays;
/// a found file that no step is about stays, and so does one that is kept; one
/// that is deleted or moved is gone, and what a moved one held is in the
/// directory under a name that was not there before.
pub proof fn steps_overwrite_nothing(disk: Disk, names: Seq<Seq<u8>>, steps: Seq<PlannedAction>)
    requires
        can_be_carried_out(disk, steps),
    ensures
        ({
            let after = after_steps(disk, names, steps);
            &&& after.found.dom().finite() && after.moved.dom().finite()
            &&& forall|name: Seq<u8>| #[trigger]
                disk.moved.contains_key(name) ==> after.moved.contains_key(name)
                    && after.moved[name] == disk.moved[name]
            &&& forall|file: int| #[trigger]
                disk.found.contains_key(file) && !has_step(steps, file)
                    ==> after.found.contains_key(file) && after.found[file] == disk.found[file]
            &&& forall|k: int|
                0 <= k < steps.len() ==> {
                    let file = (#[trigger] steps[k]).file as int;
                    let place = place_of(disk, names, steps, k);
                    match steps[k].action {
                        FileAction::Keep => after.found.contains_key(file) && after.found[file]
                            == disk.found[file],
                        FileAction::Delete => !after.found.contains_key(file),
                        FileAction::Move => {
                            &&& !after.found.contains_key(file)
                            &&& !disk.moved.contains_key(place)
                            &&& after.moved.contains_key(place)
                            &&& after.moved[place] == disk.found[file]
                        },
                    }
                }
        }),
    decreases steps.len(),
{
    if steps.len() > 0 {
        let fewer = steps.drop_last();
        let n = fewer.len() as int;
        let before = after_steps(disk, names, fewer);
        let after = after_steps(disk, names, steps);
        let last = steps.last();
        let file = last.file as int;
        lemma_fewer_steps(disk, steps);
        steps_overwrite_nothing(disk, names, fewer);
        assert(steps.take(n) =~= fewer);
        assert(steps[n] == last);
        let place = destination(names[file], before.moved.dom());
        destination_is_free(names[file], before.moved.dom());
        assert forall|other: int| #[trigger]
            disk.found.contains_key(other) && !has_step(steps, other) implies after.found.contains_key(
            other,
        ) && after.found[other] == disk.found[other] by {
            assert(other != file) by {
                assert(steps[n].file == file);
            }
            assert(!has_step(fewer, other)) by {
                if has_step(fewer, other) {
                    let k = choose|k: int|
                        0 <= k < fewer.len() && (#[trigger] fewer[k]).file == other;
                    assert(steps[k].file == other);
                }
            }
        }
        assert forall|k: int| 0 <= k < steps.len() implies ({
            let file = (#[trigger] steps[k]).file as int;
            let place = place_of(disk, names, steps, k);
            match steps[k].action {
                FileAction::Keep => after.found.contains_key(file) && after.found[file]
                    == disk.found[file],
                FileAction::Delete => !after.found.contains_key(file),
                FileAction::Move => {
                    &&& !after.found.contains_key(file)
                    &&& !disk.moved.contains_key(place)
                    &&& after.moved.contains_key(place)
                    &&& after.moved[place] == disk.found[file]
                },
            }
        }) by {
            if k < n {
                assert(fewer[k] == steps[k]);
                assert(steps.take(k) =~= fewer.take(k));
                assert(steps[k].file != steps[n].file);
            }
        }
    }
}

/// What the files of a map hold, each as often as there are files with it.
pub open spec fn held<K>(files: Map<K, Seq<u8>>) -> Multiset<Seq<u8>> {
    files.dom().to_seq().map_values(|key: K| files[key]).to_multiset()
}

/// One more file adds what it holds.
proof fn lemma_held_inserted<K>(files: Map<K, Seq<u8>>, key: K, content: Seq<u8>)
    requires
        files.dom().finite(),
        !files.contains_key(key),
    ensures
        held(files.insert(key, content)) == held(files).insert(content),
{
    let more = files.insert(key, content);
    let keys = files.dom().to_seq();
    let all = more.dom().to_seq();
    let value = |key: K| more[key];
    set_in_sequence(files.dom());
    set_in_sequence(more.dom());
    let pushed = keys.push(key);
    assert(pushed.no_duplicates()) by {
        assert forall|i: int, j: int| 0 <= i < pushed.len() && 0 <= j < pushed.len() && i
            != j implies pushed[i] != pushed[j] by {
            if i < keys.len() {
                assert(keys.contains(keys[i]));
            }
            if j < keys.len() {
                assert(keys.contains(keys[j]));
            }
        }
    }
    assert forall|x: K| #[trigger] all.contains(x) <==> pushed.contains(x) by {
        assert(all.contains(x) <==> more.dom().contains(x));
        assert(keys.contains(x) <==> files.dom().contains(x));
        if keys.contains(x) {
            assert(pushed[keys.index_of(x)] == x);
        }
        assert(pushed[keys.len() as int] == key);
        if pushed.contains(x) && x != key {
            assert(keys[pushed.index_of(x)] == x);
        }
    }
    same_elements_once(all, pushed);
    mapped_multisets(all, pushed, value);
    let old = keys.map_values(|key: K| files[key]);
    assert(pushed.map_values(value) =~= old.push(content)) by {
        assert forall|i: int| 0 <= i < keys.len() implies value(#[trigger] keys[i])
            == files[keys[i]] by {
            assert(keys.contains(keys[i]));
        }
    }
    assert(all.map_values(value) =~= all.map_values(|key: K| more[key]));
    vstd::seq_lib::to_multiset_build(old, content);
}

/// Steps that delete nothing lose nothing: over all files together, the same is
/// held, and as often, as before.
pub proof fn moving_loses_nothing(disk: Disk, names: Seq<Seq<u8>>, steps: Seq<PlannedAction>)
    requires
        can_be_carried_out(disk, steps),
        forall|k: int|
            0 <= k < steps.len() ==> (#[trigger] steps[k]).action != FileAction::Delete,
    ensures
        ({
            let after = after_steps(disk, names, steps);
            held(after.found).add(held(after.moved)) == held(disk.found).add(held(disk.moved))
        }),
    decreases steps.len(),
{
    if steps.len() > 0 {
        let fewer = steps.drop_last();
        let before = after_steps(disk, names, fewer);
        let after = after_steps(disk, names, steps);
        let file = steps.last().file as int;
        lemma_fewer_steps(disk, steps);
        assert forall|k: int| 0 <= k < fewer.len() implies (#[trigger] fewer[k]).action
            != FileAction::Delete by {
            assert(fewer[k] == steps[k]);
        }
        moving_loses_nothing(disk, names, fewer);
        steps_overwrite_nothing(disk, names, fewer);
        assert(steps[steps.len() - 1] == steps.last());
        if steps.last().action == FileAction::Move {
            let content = before.found[file];
            let place = destination(names[file], before.moved.dom());
            destination_is_free(names[file], before.moved.dom());
            assert(before.found.contains_key(file));
            lemma_held_inserted(before.moved, place, content);
            lemma_held_inserted(before.found.remove(file), file, content);
            assert(before.found.remove(file).insert(file, content) =~= before.found);
            assert(held(after.found).add(held(after.moved)) =~= held(before.found).add(
                held(before.moved),
            ));
        }
    }
}

/// The steps of plans, plan after plan.
pub open spec fn in_turn(plans: Seq<Seq<PlannedAction>>) -> Seq<PlannedAction>
    decreases plans.len(),
{
    if plans.len() == 0 {
        Seq::<PlannedAction>::empty()
    } else {
        in_turn(plans.drop_last()) + plans.last()
    }
}

/// Some plan holds a step.
spec fn some_plan_has(plans: Seq<Seq<PlannedAction>>, step: PlannedAction) -> bool {
    exists|g: int, i: int|
        0 <= g < plans.len() && 0 <= i < plans[g].len() && #[trigger] plans[g][i] == step
}

/// The steps of plans are those that the plans hold.
proof fn lemma_in_turn(plans: Seq<Seq<PlannedAction>>)
    ensures
        forall|g: int, i: int|
            0 <= g < plans.len() && 0 <= i < plans[g].len() ==> in_turn(plans).contains(
                #[trigger] plans[g][i],
            ),
        forall|k: int|
            0 <= k < in_turn(plans).len() ==> some_plan_has(plans, #[trigger] in_turn(plans)[k]),
    decreases plans.len(),
{
    if plans.len() > 0 {
        let fewer = plans.drop_last();
        let front = in_turn(fewer);
        let all = in_turn(plans);
        let last = plans.last();
        lemma_in_turn(fewer);
        assert forall|g: int, i: int|
            0 <= g < plans.len() && 0 <= i < plans[g].len() implies all.contains(
            #[trigger] plans[g][i],
        ) by {
            if g < fewer.len() {
                assert(front.contains(fewer[g][i]));
                assert(all[front.index_of(fewer[g][i])] == plans[g][i]);
            } else {
                assert(all[front.len() + i] == plans[g][i]);
            }
        }
        assert forall|k: int| 0 <= k < all.len() implies some_plan_has(
            plans,
            #[trigger] all[k],
        ) by {
            if k < front.len() {
                assert(some_plan_has(fewer, front[k]));
                let (g, i) = choose|g: int, i: int|
                    0 <= g < fewer.len() && 0 <= i < fewer[g].len() && #[trigger] fewer[g][i]
                        == front[k];
                assert(plans[g][i] == all[k]);
            } else {
                assert(plans[plans.len() - 1][k - front.len()] == all[k]);
            }
        }
    }
}

/// The files of groups as integers.
pub open spec fn int_groups(groups: Seq<Seq<usize>>) -> Seq<Seq<int>> {
    groups.map_values(|files: Seq<usize>| ints(files))
}

/// The steps for groups are about their files, group after group.
proof fn lemma_step_files(groups: Seq<Seq<usize>>, selection: Selection)
    ensures
        in_turn(all_plans(groups, selection)).map_values(|step: PlannedAction| step.file as int)
            == members(int_groups(groups)),
    decreases groups.len(),
{
    let file = |step: PlannedAction| step.file as int;
    let plans = all_plans(groups, selection);
    if groups.len() > 0 {
        let fewer = groups.drop_last();
        lemma_step_files(fewer, selection);
        assert(plans.drop_last() =~= all_plans(fewer, selection));
        assert(int_groups(groups).drop_last() =~= int_groups(fewer));
        let last = group_plan(groups.last(), selection);
        assert(last.map_values(file) =~= ints(groups.last()));
        assert(in_turn(plans).map_values(file) =~= in_turn(plans.drop_last()).map_values(file)
            + last.map_values(file));
    } else {
        assert(in_turn(plans).map_values(file) =~= members(int_groups(groups)));
    }
}

/// What was held by a found file is in the directory under a name that was not
/// there before.
pub open spec fn newly_moved(before: Disk, after: Disk, file: int) -> bool {
    exists|place: Seq<u8>|
        !before.moved.contains_key(place) && #[trigger] after.moved.contains_key(place)
            && after.moved[place] == before.found[file]
}

/// Groups of found files that share nothing and repeat nothing.
pub open spec fn groups_on_disk(disk: Disk, groups: Seq<Seq<usize>>) -> bool {
    &&& disk.found.dom().finite()
    &&& disk.moved.dom().finite()
    &&& disjoint_lists(int_groups(groups))
    &&& lists_without_repeats(int_groups(groups))
    &&& forall|g: int, i: int|
        0 <= g < groups.len() && 0 <= i < groups[g].len() ==> disk.found.contains_key(
            #[trigger] groups[g][i] as int,
        )
}

/// What is there once a selection is carried out on all groups.
pub open spec fn after_selection(
    disk: Disk,
    names: Seq<Seq<u8>>,
    groups: Seq<Seq<usize>>,
    selection: Selection,
) -> Disk {
    after_steps(disk, names, in_turn(all_plans(groups, selection)))
}

/// The found file is as it was.
pub open spec fn stays(before: Disk, after: Disk, file: int) -> bool {
    after.found.contains_key(file) && after.found[file] == before.found[file]
}

/// The steps of a selection can be carried out, and do what it means.
proof fn lemma_selection_steps(disk: Disk, groups: Seq<Seq<usize>>, selection: Selection)
    requires
        groups_on_disk(disk, groups),
    ensures
        ({
            let plans = all_plans(groups, selection);
            let steps = in_turn(plans);
            &&& can_be_carried_out(disk, steps)
            &&& forall|k: int|
                0 <= k < steps.len() ==> some_list_has(
                    int_groups(groups),
                    (#[trigger] steps[k]).file as int,
                ) && exists|i: int| steps[k].action == #[trigger] action_at(selection, i)
            &&& forall|g: int, i: int|
                0 <= g < groups.len() && 0 <= i < groups[g].len() ==> plans[g][i] == (
                PlannedAction {
                    file: #[trigger] groups[g][i],
                    action: action_at(selection, i),
                }) && steps.contains(plans[g][i])
        }),
{
    let plans = all_plans(groups, selection);
    let steps = in_turn(plans);
    lemma_in_turn(plans);
    lemma_step_files(groups, selection);
    members_of_lists(int_groups(groups));
    let file = |step: PlannedAction| step.file as int;
    let files = steps.map_values(file);
    assert(files.no_duplicates());
    assert forall|k: int| 0 <= k < steps.len() implies disk.found.contains_key(
        (#[trigger] steps[k]).file as int,
    ) && some_list_has(int_groups(groups), steps[k].file as int) && (exists|i: int|
        steps[k].action == #[trigger] action_at(selection, i)) by {
        assert(some_plan_has(plans, steps[k]));
        let (g, i) = choose|g: int, i: int|
            0 <= g < plans.len() && 0 <= i < plans[g].len() && #[trigger] plans[g][i] == steps[k];
        assert(plans[g][i].file == groups[g][i]);
        assert(plans[g][i].action == action_at(selection, i));
        assert(int_groups(groups)[g][i] == groups[g][i]);
        assert(int_groups(groups)[g].contains(groups[g][i] as int));
    }
    assert forall|k: int, l: int|
        #![trigger steps[k], steps[l]]
        0 <= k < l < steps.len() implies steps[k].file != steps[l].file by {
        assert(files[k] != files[l]);
    }
    assert forall|g: int, i: int| 0 <= g < groups.len() && 0 <= i < groups[g].len() implies plans[g][i]
        == (PlannedAction { file: #[trigger] groups[g][i], action: action_at(selection, i) })
        && steps.contains(plans[g][i]) by {
        assert(0 <= i < plans[g].len());
    }
}

/// Carrying out a selection does to each file of each group what it means for
/// the file, leaves every file outside the groups as it was, and overwrites
/// nothing.
pub proof fn selection_is_carried_out(
    disk: Disk,
    names: Seq<Seq<u8>>,
    groups: Seq<Seq<usize>>,
    selection: Selection,
)
    requires
        groups_on_disk(disk, groups),
    ensures
        ({
            let after = after_selection(disk, names, groups, selection);
            &&& forall|g: int, i: int|
                0 <= g < groups.len() && 0 <= i < groups[g].len() ==> {
                    let file = #[trigger] groups[g][i] as int;
                    match action_at(selection, i) {
                        FileAction::Keep => stays(disk, after, file),
                        FileAction::Delete => !after.found.contains_key(file),
                        FileAction::Move => !after.found.contains_key(file) && newly_moved(
                            disk,
                            after,
                            file,
                        ),
                    }
                }
            &&& forall|file: int| #[trigger]
                disk.found.contains_key(file) && !some_list_has(int_groups(groups), file) ==> stays(
                    disk,
                    after,
                    file,
                )
            &&& forall|name: Seq<u8>| #[trigger]
                disk.moved.contains_key(name) ==> after.moved.contains_key(name)
                    && after.moved[name] == disk.moved[name]
        }),
{
    let plans = all_plans(groups, selection);
    let steps = in_turn(plans);
    let after = after_steps(disk, names, steps);
    lemma_selection_steps(disk, groups, selection);
    steps_overwrite_nothing(disk, names, steps);
    assert forall|g: int, i: int| 0 <= g < groups.len() && 0 <= i < groups[g].len() implies ({
        let file = #[trigger] groups[g][i] as int;
        match action_at(selection, i) {
            FileAction::Keep => stays(disk, after, file),
            FileAction::Delete => !after.found.contains_key(file),
            FileAction::Move => !after.found.contains_key(file) && newly_moved(disk, after, file),
        }
    }) by {
        let step = plans[g][i];
        let k = steps.index_of(step);
        assert(steps[k] == step);
        if step.action == FileAction::Move {
            assert(after.moved.contains_key(place_of(disk, names, steps, k)));
        }
    }
    assert forall|file: int| #[trigger]
        disk.found.contains_key(file) && !some_list_has(int_groups(groups), file) implies stays(
        disk,
        after,
        file,
    ) by {
        if has_step(steps, file) {
            let k = choose|k: int| 0 <= k < steps.len() && (#[trigger] steps[k]).file == file;
            assert(some_list_has(int_groups(groups), steps[k].file as int));
        }
    }
}

/// Moving the duplicates of all groups keeps the first file of each group where
/// it is, moves each other file to a name that was not there before, leaves all
/// other files as they were, overwrites nothing and loses nothing.
pub proof fn moving_duplicates(disk: Disk, names: Seq<Seq<u8>>, groups: Seq<Seq<usize>>)
    requires
        groups_on_disk(disk, groups),
    ensures
        ({
            let after = after_selection(disk, names, groups, all_but(Operation::Move, 0));
            &&& forall|g: int, i: int|
                0 <= g < groups.len() && 0 <= i < groups[g].len() ==> {
                    let file = #[trigger] groups[g][i] as int;
                    if i == 0 {
                        stays(disk, after, file)
                    } else {
                        !after.found.contains_key(file) && newly_moved(disk, after, file)
                    }
                }
            &&& forall|file: int| #[trigger]
                disk.found.contains_key(file) && !some_list_has(int_groups(groups), file) ==> stays(
                    disk,
                    after,
                    file,
                )
            &&& forall|name: Seq<u8>| #[trigger]
                disk.moved.contains_key(name) ==> after.moved.contains_key(name)
                    && after.moved[name] == disk.moved[name]
            &&& held(after.found).add(held(after.moved)) == held(disk.found).add(held(disk.moved))
        }),
{
    let selection = all_but(Operation::Move, 0);
    lemma_selection_steps(disk, groups, selection);
    selection_is_carried_out(disk, names, groups, selection);
    moving_loses_nothing(disk, names, in_turn(all_plans(groups, selection)));
}

/// Steps that move nothing leave the directory as it was.
proof fn lemma_nothing_moved(disk: Disk, names: Seq<Seq<u8>>, steps: Seq<PlannedAction>)
    requires
        forall|k: int| 0 <= k < steps.len() ==> (#[trigger] steps[k]).action != FileAction::Move,
    ensures
        after_steps(disk, names, steps).moved == disk.moved,
    decreases steps.len(),
{
    if steps.len() > 0 {
        let fewer = steps.drop_last();
        assert forall|k: int| 0 <= k < fewer.len() implies (#[trigger] fewer[k]).action
            != FileAction::Move by {
            assert(fewer[k] == steps[k]);
        }
        lemma_nothing_moved(disk, names, fewer);
        assert(steps[steps.len() - 1] == steps.last());
    }
}

/// Deleting the duplicates of all groups but the file at `index` of each keeps
/// that file as it was, removes every other file of the groups, and changes
/// neither a file outside the groups nor the directory that files are moved to.
pub proof fn deleting_duplicates(
    disk: Disk,
    names: Seq<Seq<u8>>,
    groups: Seq<Seq<usize>>,
    index: usize,
)
    requires
        groups_on_disk(disk, groups),
    ensures
        ({
            let after = after_selection(disk, names, groups, all_but(Operation::Delete, index));
            &&& forall|g: int, i: int|
                0 <= g < groups.len() && 0 <= i < groups[g].len() ==> {
                    let file = #[trigger] groups[g][i] as int;
                    if i == index {
                        stays(disk, after, file)
                    } else {
                        !after.found.contains_key(file)
                    }
                }
            &&& forall|file: int| #[trigger]
                disk.found.contains_key(file) && !some_list_has(int_groups(groups), file) ==> stays(
                    disk,
                    after,
                    file,
                )
            &&& after.moved == disk.moved
        }),
{
    let selection = all_but(Operation::Delete, index);
    lemma_selection_steps(disk, groups, selection);
    selection_is_carried_out(disk, names, groups, selection);
    lemma_nothing_moved(disk, names, in_turn(all_plans(groups, selection)));
}

/// Deleting all files removes every file of every group, and changes neither a
/// file outside the groups nor the directory that files are moved to.
pub proof fn deleting_all(disk: Disk, names: Seq<Seq<u8>>, groups: Seq<Seq<usize>>)
    requires
        groups_on_disk(disk, groups),
    ensures
        ({
            let after = after_selection(disk, names, groups, delete_all());
            &&& forall|g: int, i: int|
                0 <= g < groups.len() && 0 <= i < groups[g].len() ==> !after.found.contains_key(
                    #[trigger] groups[g][i] as int,
                )
            &&& forall|file: int| #[trigger]
                disk.found.contains_key(file) && !some_list_has(int_groups(groups), file) ==> stays(
                    disk,
                    after,
                    file,
                )
            &&& after.moved == disk.moved
        }),
{
    lemma_selection_steps(disk, groups, delete_all());
    selection_is_carried_out(disk, names, groups, delete_all());
    lemma_nothing_moved(disk, names, in_turn(all_plans(groups, delete_all())));
}

} // verus!
