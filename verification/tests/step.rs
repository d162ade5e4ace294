use data_generation::step::{parse_step, Step};

#[test]
fn parse_step_names_the_four_steps() {
    assert_eq!(parse_step(&"no_change".to_string()), Some(Step::NoChange));
    assert_eq!(parse_step(&"add_columns".to_string()), Some(Step::AddColumns));
    assert_eq!(parse_step(&"change_once".to_string()), Some(Step::ChangeOnce));
    assert_eq!(parse_step(&"combine".to_string()), Some(Step::Combine));
    assert_eq!(parse_step(&"something".to_string()), None);
    assert_eq!(parse_step(&"".to_string()), None);
}
