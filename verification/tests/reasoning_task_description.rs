use hermit_tableau::object::Concept;
use hermit_tableau::reasoning_task_description::{ReasoningTaskDescription, StandardTestType, TaskArgument};

fn text(s: &str) -> TaskArgument {
    TaskArgument::Text(String::from(s))
}

fn texts(items: &[&str]) -> Vec<String> {
    items.iter().map(|s| String::from(*s)).collect()
}

#[test]
fn subsumption_descriptions_fill_both_arguments() {
    let description = ReasoningTaskDescription::is_concept_subsumed_by(text("A"), text("B"));
    assert!(description.flip_satisfiability_result());
    assert_eq!(description.get_message_pattern(), "concept subsumption '{0}' => '{1}'");
    assert_eq!(description.get_task_description(&texts(&["A", "B"])), "concept subsumption 'A' => 'B'");
}

#[test]
fn consistency_has_no_arguments() {
    let description = ReasoningTaskDescription::is_abox_satisfiable();
    assert!(!description.flip_satisfiability_result());
    assert_eq!(description.get_task_description(&Vec::new()), "ABox satisfiability");
}

#[test]
fn list_descriptions_number_the_superconcepts() {
    let description = ReasoningTaskDescription::is_concept_subsumed_by_list(
        text("C"),
        vec![text("D"), text("E")],
    );
    assert_eq!(
        description.get_message_pattern(),
        "satisiability of concept '{0}'  and not({1}) and not({2})"
    );
    assert_eq!(
        description.get_task_description(&texts(&["C", "D", "E"])),
        "satisiability of concept 'C'  and not(D) and not(E)"
    );
    let roles = ReasoningTaskDescription::is_role_subsumed_by_list(text("r"), vec![text("s")]);
    assert_eq!(roles.get_task_description(&texts(&["r", "s"])), "satisiability of role 'r'  and not(s)");
}

#[test]
fn every_occurrence_of_a_placeholder_is_replaced() {
    let description = ReasoningTaskDescription::with_message(
        false,
        String::from("{0} and {0} but {1}"),
        vec![text("x"), text("y")],
    );
    assert_eq!(description.get_task_description(&texts(&["x", "y"])), "x and x but y");
}

#[test]
fn role_and_instance_descriptions() {
    let object_role = ReasoningTaskDescription::is_role_satisfiable(text("r"), true);
    assert_eq!(object_role.get_task_description(&texts(&["r"])), "satisfiability of object role 'r'");
    let data_role = ReasoningTaskDescription::is_role_subsumed_by(text("p"), text("q"), false);
    assert_eq!(data_role.get_task_description(&texts(&["p", "q"])), "data role subsumption 'p' => 'q'");
    let instance = ReasoningTaskDescription::is_object_role_instance_of(text("r"), text("a"), text("b"));
    assert_eq!(instance.get_task_description(&texts(&["r", "a", "b"])), "object role instance 'r'('a', 'b')");
    let domain = ReasoningTaskDescription::is_domain_of(text("C"), text("r"));
    assert_eq!(domain.get_task_description(&texts(&["C", "r"])), "check if C is domain of r");
    assert_eq!(StandardTestType::Range.message_pattern(), "check if {0} is range of {1}");
}

#[test]
fn single_argument_and_instance_descriptions() {
    let concept = ReasoningTaskDescription::is_concept_satisfiable(text("C"));
    assert_eq!(concept.get_task_description(&texts(&["C"])), "satisfiability of concept 'C'");
    assert!(!concept.flip_satisfiability_result());
    let instance = ReasoningTaskDescription::is_instance_of(text("C"), text("a"));
    assert_eq!(instance.get_task_description(&texts(&["C", "a"])), "class instance 'C'('a')");
    assert!(instance.flip_satisfiability_result());
    let data = ReasoningTaskDescription::is_data_role_instance_of(text("p"), text("a"), text("v"));
    assert_eq!(data.get_task_description(&texts(&["p", "a", "v"])), "data role instance 'p'('a', 'v')");
    let entailed = ReasoningTaskDescription::is_axiom_entailed(text("ax"));
    assert_eq!(entailed.get_task_description(&texts(&["ax"])), "entailment of 'ax'");
    let range = ReasoningTaskDescription::is_range_of(text("D"), text("r"));
    assert_eq!(range.get_task_description(&texts(&["D", "r"])), "check if D is range of r");
}

#[test]
fn arguments_convert_into_task_arguments() {
    let text_argument: TaskArgument = String::from("C").into();
    let description = ReasoningTaskDescription::is_concept_satisfiable(text_argument);
    assert_eq!(description.get_task_description(&texts(&["C"])), "satisfiability of concept 'C'");
    let concept_argument: TaskArgument = Concept { id: 3 }.into();
    assert!(matches!(concept_argument, TaskArgument::Concept(Concept { id: 3 })));
}
