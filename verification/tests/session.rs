use duplicate_finder::actions::{
    parse_group_choice, parse_main_choice, parse_move_selection, process_groups,
    process_single_group, Choice, FileAction, Operation, PlannedAction, Selection,
};
use duplicate_finder::duplicates::DuplicateGroup;
use duplicate_finder::session::{answer, Prompt, Reply};

const DELETE_ALL: Choice = Choice::Apply(Selection {
    operation: Operation::Delete,
    keep_index: None,
    keep_selected: false,
});

fn all_but(operation: Operation, index: usize) -> Choice {
    Choice::Apply(Selection { operation, keep_index: Some(index), keep_selected: true })
}

fn plan(actions: &[(usize, FileAction)]) -> Vec<PlannedAction> {
    actions.iter().map(|&(file, action)| PlannedAction { file, action }).collect()
}

fn groups() -> Vec<DuplicateGroup> {
    vec![
        DuplicateGroup { hash: "x".to_string(), files: vec![4, 7, 9] },
        DuplicateGroup { hash: "y".to_string(), files: vec![1, 2] },
    ]
}

fn process(reply: Reply) -> Vec<Vec<PlannedAction>> {
    match reply {
        Reply::Process(plans) => plans,
        _ => panic!("nothing to process"),
    }
}

#[test]
fn answers_about_all_groups() {
    assert_eq!(parse_main_choice(" 0\n"), Choice::KeepAll);
    assert_eq!(parse_main_choice("d"), DELETE_ALL);
    assert_eq!(parse_main_choice("D\r\n"), DELETE_ALL);
    assert_eq!(parse_main_choice("m"), all_but(Operation::Move, 0));
    assert_eq!(parse_main_choice("M"), all_but(Operation::Move, 0));
    assert_eq!(parse_main_choice("1"), all_but(Operation::Delete, 0));
    assert_eq!(parse_main_choice("i"), Choice::EachGroup);
    assert_eq!(parse_main_choice("I"), Choice::EachGroup);
    for input in ["", "2", "00", "+0", "dd", "m1", "x", "д", "0 0"] {
        assert_eq!(parse_main_choice(input), Choice::BadInput, "{}", input);
    }
}

#[test]
fn answers_about_one_group() {
    assert_eq!(parse_group_choice("0", 3), Choice::KeepAll);
    assert_eq!(parse_group_choice("D", 3), DELETE_ALL);
    assert_eq!(parse_group_choice("M", 3), all_but(Operation::Move, 0));
    assert_eq!(parse_group_choice(" 1 ", 3), all_but(Operation::Delete, 0));
    assert_eq!(parse_group_choice("3", 3), all_but(Operation::Delete, 2));
    assert_eq!(parse_group_choice("+2", 3), all_but(Operation::Delete, 1));
    assert_eq!(parse_group_choice("m1", 3), all_but(Operation::Move, 0));
    assert_eq!(parse_group_choice("m3", 3), all_but(Operation::Move, 2));
    assert_eq!(parse_group_choice("m+2", 3), all_but(Operation::Move, 1));
    for input in ["4", "00", "+0", "18446744073709551615"] {
        assert_eq!(parse_group_choice(input, 3), Choice::BadNumber, "{}", input);
    }
    for input in ["", "i", "m0", "m4", "M2", "m 2", "mm", "-1", "18446744073709551616", "я"] {
        assert_eq!(parse_group_choice(input, 3), Choice::BadInput, "{}", input);
    }
}

#[test]
fn selections_of_what_to_move() {
    assert_eq!(parse_move_selection("m2", 3), Some(1));
    assert_eq!(parse_move_selection("m3", 3), Some(2));
    assert_eq!(parse_move_selection("m003", 3), Some(2));
    for input in ["m4", "m0", "m", "2", "M2", "", "mx", " m2", "я2"] {
        assert_eq!(parse_move_selection(input, 3), None, "{}", input);
    }
}

#[test]
fn plans_for_a_group() {
    let files = vec![4, 7, 9];
    let keep_second =
        Selection { operation: Operation::Move, keep_index: Some(1), keep_selected: true };
    assert_eq!(
        process_single_group(&files, keep_second),
        plan(&[(4, FileAction::Move), (7, FileAction::Keep), (9, FileAction::Move)])
    );
    let delete_all =
        Selection { operation: Operation::Delete, keep_index: None, keep_selected: false };
    assert_eq!(
        process_single_group(&files, delete_all),
        plan(&[(4, FileAction::Delete), (7, FileAction::Delete), (9, FileAction::Delete)])
    );
    let not_selected =
        Selection { operation: Operation::Delete, keep_index: Some(0), keep_selected: false };
    assert_eq!(
        process_single_group(&files, not_selected),
        process_single_group(&files, delete_all)
    );
    let out_of_range =
        Selection { operation: Operation::Delete, keep_index: Some(3), keep_selected: true };
    assert_eq!(
        process_single_group(&files, out_of_range),
        process_single_group(&files, delete_all)
    );
}

#[test]
fn plans_for_all_groups() {
    let keep_first =
        Selection { operation: Operation::Delete, keep_index: Some(0), keep_selected: true };
    assert_eq!(
        process_groups(&groups(), keep_first),
        vec![
            plan(&[(4, FileAction::Keep), (7, FileAction::Delete), (9, FileAction::Delete)]),
            plan(&[(1, FileAction::Keep), (2, FileAction::Delete)]),
        ]
    );
}

#[test]
fn one_answer_for_all_groups() {
    let groups = groups();
    let (next, reply) = answer(Prompt::Main, "0\n", &groups);
    assert_eq!(next, Prompt::Done);
    assert!(matches!(reply, Reply::Kept));

    let (next, reply) = answer(Prompt::Main, "m\n", &groups);
    assert_eq!(next, Prompt::Done);
    assert_eq!(
        process(reply),
        vec![
            plan(&[(4, FileAction::Keep), (7, FileAction::Move), (9, FileAction::Move)]),
            plan(&[(1, FileAction::Keep), (2, FileAction::Move)]),
        ]
    );

    let (next, reply) = answer(Prompt::Main, "d\n", &groups);
    assert_eq!(next, Prompt::Done);
    for plan in process(reply) {
        assert!(plan.iter().all(|step| step.action == FileAction::Delete));
    }

    let (next, reply) = answer(Prompt::Main, "what\n", &groups);
    assert_eq!(next, Prompt::Main);
    assert!(matches!(reply, Reply::BadInput));
}

#[test]
fn an_answer_for_each_group() {
    let groups = groups();
    let (next, reply) = answer(Prompt::Main, "i\n", &groups);
    assert_eq!(next, Prompt::Group(0));
    assert!(matches!(reply, Reply::OneByOne));

    let (next, reply) = answer(next, "4\n", &groups);
    assert_eq!(next, Prompt::Group(0));
    assert!(matches!(reply, Reply::BadNumber));

    let (next, reply) = answer(next, "m4\n", &groups);
    assert_eq!(next, Prompt::Group(0));
    assert!(matches!(reply, Reply::BadInput));

    let (next, reply) = answer(next, "2\n", &groups);
    assert_eq!(next, Prompt::Group(1));
    assert_eq!(
        process(reply),
        vec![plan(&[(4, FileAction::Delete), (7, FileAction::Keep), (9, FileAction::Delete)])]
    );

    let (next, reply) = answer(next, "m2\n", &groups);
    assert_eq!(next, Prompt::Done);
    assert_eq!(process(reply), vec![plan(&[(1, FileAction::Move), (2, FileAction::Keep)])]);

    let (next, reply) = answer(Prompt::Group(1), "0\n", &groups);
    assert_eq!(next, Prompt::Done);
    assert!(matches!(reply, Reply::Kept));
}

#[test]
fn one_file_is_kept_unless_all_are_to_go() {
    let groups = groups();
    let inputs = ["0", "1", "2", "3", "d", "D", "m", "M", "m1", "m2", "m3", "i", "x"];
    for prompt in [Prompt::Main, Prompt::Group(0), Prompt::Group(1)] {
        for input in inputs {
            if let (_, Reply::Process(plans)) = answer(prompt, input, &groups) {
                for plan in plans {
                    let kept =
                        plan.iter().filter(|step| step.action == FileAction::Keep).count();
                    assert_eq!(kept, if input == "d" || input == "D" { 0 } else { 1 });
                }
            }
        }
    }
}

/// What is left of some files, and what was moved away, once an answer about all
/// groups is carried out.
fn left_and_moved(input: &str) -> (Vec<usize>, Vec<usize>) {
    let mut left = vec![1, 2, 3, 4, 7, 9];
    let mut moved = vec![];
    let (_, reply) = answer(Prompt::Main, input, &groups());
    for plan in process(reply) {
        for step in plan {
            assert!(left.contains(&step.file));
            if step.action != FileAction::Keep {
                left.retain(|file| *file != step.file);
            }
            if step.action == FileAction::Move {
                moved.push(step.file);
            }
        }
    }
    (left, moved)
}

#[test]
fn only_the_files_of_the_groups_go() {
    assert_eq!(left_and_moved("1"), (vec![1, 3, 4], vec![]));
    assert_eq!(left_and_moved("d"), (vec![3], vec![]));
    assert_eq!(left_and_moved("m"), (vec![1, 3, 4], vec![7, 9, 2]));
}
