use vstd::prelude::*;
use crate::object::{Concept, DLPredicate, Role, Term};
use crate::text::{decimal, push_char, push_decimal};

verus! {

/// The kinds of standard reasoning tasks.
#[derive(Clone, Copy, Debug, PartialEq, Eq, Structural, Hash)]
pub enum StandardTestType {
    ConceptSatisfiability,
    Consistency,
    ConceptSubsumption,
    ObjectRoleSatisfiability,
    DataRoleSatisfiability,
    ObjectRoleSubsumption,
    DataRoleSubsumption,
    InstanceOf,
    ObjectRoleInstanceOf,
    DataRoleInstanceOf,
    Entailment,
    Domain,
    Range,
}

/// The message pattern of each task kind; `{i}` stands for argument `i`.
pub open spec fn pattern_text(t: StandardTestType) -> Seq<char> {
    match t {
        StandardTestType::ConceptSatisfiability => "satisfiability of concept '{0}'"@,
        StandardTestType::Consistency => "ABox satisfiability"@,
        StandardTestType::ConceptSubsumption => "concept subsumption '{0}' => '{1}'"@,
        StandardTestType::ObjectRoleSatisfiability => "satisfiability of object role '{0}'"@,
        StandardTestType::DataRoleSatisfiability => "satisfiability of data role '{0}'"@,
        StandardTestType::ObjectRoleSubsumption => "object role subsumption '{0}' => '{1}'"@,
        StandardTestType::DataRoleSubsumption => "data role subsumption '{0}' => '{1}'"@,
        StandardTestType::InstanceOf => "class instance '{0}'('{1}')"@,
        StandardTestType::ObjectRoleInstanceOf => "object role instance '{0}'('{1}', '{2}')"@,
        StandardTestType::DataRoleInstanceOf => "data role instance '{0}'('{1}', '{2}')"@,
        StandardTestType::Entailment => "entailment of '{0}'"@,
        StandardTestType::Domain => "check if {0} is domain of {1}"@,
        StandardTestType::Range => "check if {0} is range of {1}"@,
    }
}

impl StandardTestType {
    pub fn message_pattern(self) -> (r: &'static str)
        ensures
            r@ == pattern_text(self),
    {
        match self {
            StandardTestType::ConceptSatisfiability => "satisfiability of concept '{0}'",
            StandardTestType::Consistency => "ABox satisfiability",
            StandardTestType::ConceptSubsumption => "concept subsumption '{0}' => '{1}'",
            StandardTestType::ObjectRoleSatisfiability => "satisfiability of object role '{0}'",
            StandardTestType::DataRoleSatisfiability => "satisfiability of data role '{0}'",
            StandardTestType::ObjectRoleSubsumption => "object role subsumption '{0}' => '{1}'",
            StandardTestType::DataRoleSubsumption => "data role subsumption '{0}' => '{1}'",
            StandardTestType::InstanceOf => "class instance '{0}'('{1}')",
            StandardTestType::ObjectRoleInstanceOf => "object role instance '{0}'('{1}', '{2}')",
            StandardTestType::DataRoleInstanceOf => "data role instance '{0}'('{1}', '{2}')",
            StandardTestType::Entailment => "entailment of '{0}'",
            StandardTestType::Domain => "check if {0} is domain of {1}",
            StandardTestType::Range => "check if {0} is range of {1}",
        }
    }
}

/// An argument of a task description.
pub enum TaskArgument {
    DLPredicate(DLPredicate),
    Role(Role),
    Concept(Concept),
    Term(Term),
    Text(String),
}

impl From<DLPredicate> for TaskArgument {
    fn from(v: DLPredicate) -> (r: Self) {
        TaskArgument::DLPredicate(v)
    }
}

impl vstd::std_specs::convert::FromSpecImpl<DLPredicate> for TaskArgument {
    open spec fn obeys_from_spec() -> bool {
        true
    }

    open spec fn from_spec(v: DLPredicate) -> TaskArgument {
        TaskArgument::DLPredicate(v)
    }
}

impl From<Role> for TaskArgument {
    fn from(v: Role) -> (r: Self) {
        TaskArgument::Role(v)
    }
}

impl vstd::std_specs::convert::FromSpecImpl<Role> for TaskArgument {
    open spec fn obeys_from_spec() -> bool {
        true
    }

    open spec fn from_spec(v: Role) -> TaskArgument {
        TaskArgument::Role(v)
    }
}

impl From<Concept> for TaskArgument {
    fn from(v: Concept) -> (r: Self) {
        TaskArgument::Concept(v)
    }
}

impl vstd::std_specs::convert::FromSpecImpl<Concept> for TaskArgument {
    open spec fn obeys_from_spec() -> bool {
        true
    }

    open spec fn from_spec(v: Concept) -> TaskArgument {
        TaskArgument::Concept(v)
    }
}

impl From<Term> for TaskArgument {
    fn from(v: Term) -> (r: Self) {
        TaskArgument::Term(v)
    }
}

impl vstd::std_specs::convert::FromSpecImpl<Term> for TaskArgument {
    open spec fn obeys_from_spec() -> bool {
        true
    }

    open spec fn from_spec(v: Term) -> TaskArgument {
        TaskArgument::Term(v)
    }
}

impl From<String> for TaskArgument {
    fn from(v: String) -> (r: Self) {
        TaskArgument::Text(v)
    }
}

impl vstd::std_specs::convert::FromSpecImpl<String> for TaskArgument {
    open spec fn obeys_from_spec() -> bool {
        true
    }

    open spec fn from_spec(v: String) -> TaskArgument {
        TaskArgument::Text(v)
    }
}

/// The placeholder for argument `i` in a message pattern: `{i}`.
pub open spec fn placeholder(i: nat) -> Seq<char> {
    seq!['{'] + decimal(i) + seq!['}']
}

/// `s` with every occurrence of the non-empty `pattern`, found from left to
/// right without overlaps, replaced by `replacement`.
pub open spec fn replace_all(s: Seq<char>, pattern: Seq<char>, replacement: Seq<char>) -> Seq<char>
    decreases s.len(),
{
    if s.len() == 0 || pattern.len() == 0 {
        s
    } else if pattern.len() <= s.len() && s.take(pattern.len() as int) == pattern {
        replacement + replace_all(s.skip(pattern.len() as int), pattern, replacement)
    } else {
        seq![s[0]] + replace_all(s.skip(1), pattern, replacement)
    }
}

/// The description after the placeholders of the first `n` arguments were
/// replaced by their texts, in the order of the arguments.
pub open spec fn describe(pattern: Seq<char>, texts: Seq<Seq<char>>, n: int) -> Seq<char>
    decreases n,
{
    if n <= 0 {
        pattern
    } else {
        replace_all(describe(pattern, texts, n - 1), placeholder((n - 1) as nat), texts[n - 1])
    }
}

/// The message of a list subsumption test: `prefix` followed by
/// ` and not({i})` for each of the `n` super-objects, numbered from 1.
pub open spec fn list_message(prefix: Seq<char>, n: int) -> Seq<char>
    decreases n,
{
    if n <= 0 {
        prefix
    } else {
        list_message(prefix, n - 1) + " and not("@ + placeholder(n as nat) + ")"@
    }
}

/// Describes a reasoning task for messages and monitoring.
pub struct ReasoningTaskDescription {
    flip_satisfiability_result: bool,
    message_pattern: String,
    arguments: Vec<TaskArgument>,
}

impl ReasoningTaskDescription {
    pub closed spec fn flips(&self) -> bool {
        self.flip_satisfiability_result
    }

    pub closed spec fn pattern(&self) -> Seq<char> {
        self.message_pattern@
    }

    pub closed spec fn arguments(&self) -> Seq<TaskArgument> {
        self.arguments@
    }

    pub fn new(
        flip_satisfiability_result: bool,
        test_type: StandardTestType,
        arguments: Vec<TaskArgument>,
    ) -> (r: ReasoningTaskDescription)
        ensures
            r.flips() == flip_satisfiability_result,
            r.pattern() == pattern_text(test_type),
            r.arguments() == arguments@,
    {
        ReasoningTaskDescription::with_message(
            flip_satisfiability_result,
            String::from_str(test_type.message_pattern()),
            arguments,
        )
    }

    pub fn with_message(
        flip_satisfiability_result: bool,
        message: String,
        arguments: Vec<TaskArgument>,
    ) -> (r: ReasoningTaskDescription)
        ensures
            r.flips() == flip_satisfiability_result,
            r.pattern() == message@,
            r.arguments() == arguments@,
    {
        ReasoningTaskDescription { flip_satisfiability_result, message_pattern: message, arguments }
    }

    /// Whether the task asks for the negation of a satisfiability test.
    pub fn flip_satisfiability_result(&self) -> (r: bool)
        ensures
            r == self.flips(),
    {
        self.flip_satisfiability_result
    }

    pub fn get_message_pattern(&self) -> (r: &str)
        ensures
            r@ == self.pattern(),
    {
        self.message_pattern.as_str()
    }

    /// The message pattern with the placeholder `{i}` of each argument
    /// replaced by the argument's text, `argument_texts[i]`, one argument
    /// after the other. A text argument is shown as itself; the texts of the
    /// other arguments, which depend on how names are abbreviated, are given.
    pub fn get_task_description(&self, argument_texts: &Vec<String>) -> (r: String)
        requires
            argument_texts@.len() == self.arguments().len(),
            self.arguments().len() < u64::MAX,
            forall|i: int|
                0 <= i < self.arguments().len() && (#[trigger] self.arguments()[i]) is Text
                    ==> argument_texts@[i]@ == self.arguments()[i]->Text_0@,
        ensures
            r@ == describe(
                self.pattern(),
                argument_texts@.map_values(|t: String| t@),
                self.arguments().len() as int,
            ),
    {
        let ghost texts = argument_texts@.map_values(|t: String| t@);
        let mut result = self.message_pattern.clone();
        let mut index: usize = 0;
        while index < self.arguments.len()
            invariant
                index <= self.arguments().len(),
                self.arguments().len() < u64::MAX,
                argument_texts@.len() == self.arguments().len(),
                texts == argument_texts@.map_values(|t: String| t@),
                result@ == describe(self.pattern(), texts, index as int),
            decreases self.arguments().len() - index,
        {
            let mut pattern = String::new();
            push_char(&mut pattern, '{');
            push_decimal(&mut pattern, index as u64);
            push_char(&mut pattern, '}');
            assert(pattern@ =~= placeholder(index as nat));
            result = replace_all_text(&result, &pattern, &argument_texts[index]);
            index = index + 1;
        }
        result
    }
}

impl ReasoningTaskDescription {
    fn standard(
        flip: bool,
        test_type: StandardTestType,
        arguments: Vec<TaskArgument>,
    ) -> (r: ReasoningTaskDescription)
        ensures
            r.flips() == flip,
            r.pattern() == pattern_text(test_type),
            r.arguments() == arguments@,
    {
        ReasoningTaskDescription::new(flip, test_type, arguments)
    }

    pub fn is_abox_satisfiable() -> (r: ReasoningTaskDescription)
        ensures
            !r.flips(),
            r.pattern() == pattern_text(StandardTestType::Consistency),
            r.arguments().len() == 0,
    {
        ReasoningTaskDescription::standard(false, StandardTestType::Consistency, Vec::new())
    }

    pub fn is_concept_satisfiable(atomic_concept: TaskArgument) -> (r: ReasoningTaskDescription)
        ensures
            !r.flips(),
            r.pattern() == pattern_text(StandardTestType::ConceptSatisfiability),
            r.arguments() == seq![atomic_concept],
    {
        let mut arguments = Vec::new();
        arguments.push(atomic_concept);
        ReasoningTaskDescription::standard(false, StandardTestType::ConceptSatisfiability, arguments)
    }

    pub fn is_concept_subsumed_by(
        atomic_subconcept: TaskArgument,
        atomic_superconcept: TaskArgument,
    ) -> (r: ReasoningTaskDescription)
        ensures
            r.flips(),
            r.pattern() == pattern_text(StandardTestType::ConceptSubsumption),
            r.arguments() == seq![atomic_subconcept, atomic_superconcept],
    {
        let mut arguments = Vec::new();
        arguments.push(atomic_subconcept);
        arguments.push(atomic_superconcept);
        ReasoningTaskDescription::standard(true, StandardTestType::ConceptSubsumption, arguments)
    }

    /// The satisfiability test of the subconcept together with the negation
    /// of each superconcept.
    pub fn is_concept_subsumed_by_list(
        atomic_subconcept: TaskArgument,
        atomic_superconcepts: Vec<TaskArgument>,
    ) -> (r: ReasoningTaskDescription)
        requires
            atomic_superconcepts@.len() + 1 < u64::MAX,
        ensures
            !r.flips(),
            r.pattern() == list_message(
                "satisiability of concept '{0}' "@,
                atomic_superconcepts@.len() as int,
            ),
            r.arguments() == seq![atomic_subconcept] + atomic_superconcepts@,
    {
        let message = list_text("satisiability of concept '{0}' ", atomic_superconcepts.len());
        let arguments = prepend(atomic_subconcept, atomic_superconcepts);
        ReasoningTaskDescription::with_message(false, message, arguments)
    }

    /// The satisfiability test of the subrole together with the negation of
    /// each superrole.
    pub fn is_role_subsumed_by_list(subrole: TaskArgument, superroles: Vec<TaskArgument>) -> (r:
        ReasoningTaskDescription)
        requires
            superroles@.len() + 1 < u64::MAX,
        ensures
            !r.flips(),
            r.pattern() == list_message("satisiability of role '{0}' "@, superroles@.len() as int),
            r.arguments() == seq![subrole] + superroles@,
    {
        let message = list_text("satisiability of role '{0}' ", superroles.len());
        let arguments = prepend(subrole, superroles);
        ReasoningTaskDescription::with_message(false, message, arguments)
    }

    pub fn is_role_satisfiable(role: TaskArgument, is_object_role: bool) -> (r:
        ReasoningTaskDescription)
        ensures
            !r.flips(),
            r.pattern() == pattern_text(
                if is_object_role {
                    StandardTestType::ObjectRoleSatisfiability
                } else {
                    StandardTestType::DataRoleSatisfiability
                },
            ),
            r.arguments() == seq![role],
    {
        let test_type = if is_object_role {
            StandardTestType::ObjectRoleSatisfiability
        } else {
            StandardTestType::DataRoleSatisfiability
        };
        let mut arguments = Vec::new();
        arguments.push(role);
        ReasoningTaskDescription::standard(false, test_type, arguments)
    }

    pub fn is_role_subsumed_by(subrole: TaskArgument, superrole: TaskArgument, is_object_role: bool) -> (r:
        ReasoningTaskDescription)
        ensures
            r.flips(),
            r.pattern() == pattern_text(
                if is_object_role {
                    StandardTestType::ObjectRoleSubsumption
                } else {
                    StandardTestType::DataRoleSubsumption
                },
            ),
            r.arguments() == seq![subrole, superrole],
    {
        let test_type = if is_object_role {
            StandardTestType::ObjectRoleSubsumption
        } else {
            StandardTestType::DataRoleSubsumption
        };
        let mut arguments = Vec::new();
        arguments.push(subrole);
        arguments.push(superrole);
        ReasoningTaskDescription::standard(true, test_type, arguments)
    }

    pub fn is_instance_of(atomic_concept: TaskArgument, individual: TaskArgument) -> (r:
        ReasoningTaskDescription)
        ensures
            r.flips(),
            r.pattern() == pattern_text(StandardTestType::InstanceOf),
            r.arguments() == seq![atomic_concept, individual],
    {
        let mut arguments = Vec::new();
        arguments.push(atomic_concept);
        arguments.push(individual);
        ReasoningTaskDescription::standard(true, StandardTestType::InstanceOf, arguments)
    }

    pub fn is_object_role_instance_of(
        atomic_role: TaskArgument,
        individual1: TaskArgument,
        individual2: TaskArgument,
    ) -> (r: ReasoningTaskDescription)
        ensures
            r.flips(),
            r.pattern() == pattern_text(StandardTestType::ObjectRoleInstanceOf),
            r.arguments() == seq![atomic_role, individual1, individual2],
    {
        let mut arguments = Vec::new();
        arguments.push(atomic_role);
        arguments.push(individual1);
        arguments.push(individual2);
        ReasoningTaskDescription::standard(true, StandardTestType::ObjectRoleInstanceOf, arguments)
    }

    pub fn is_data_role_instance_of(
        atomic_role: TaskArgument,
        individual1: TaskArgument,
        individual2: TaskArgument,
    ) -> (r: ReasoningTaskDescription)
        ensures
            r.flips(),
            r.pattern() == pattern_text(StandardTestType::DataRoleInstanceOf),
            r.arguments() == seq![atomic_role, individual1, individual2],
    {
        let mut arguments = Vec::new();
        arguments.push(atomic_role);
        arguments.push(individual1);
        arguments.push(individual2);
        ReasoningTaskDescription::standard(true, StandardTestType::DataRoleInstanceOf, arguments)
    }

    pub fn is_axiom_entailed(entailed: TaskArgument) -> (r: ReasoningTaskDescription)
        ensures
            r.flips(),
            r.pattern() == pattern_text(StandardTestType::Entailment),
            r.arguments() == seq![entailed],
    {
        let mut arguments = Vec::new();
        arguments.push(entailed);
        ReasoningTaskDescription::standard(true, StandardTestType::Entailment, arguments)
    }

    pub fn is_domain_of(domain: TaskArgument, role: TaskArgument) -> (r: ReasoningTaskDescription)
        ensures
            r.flips(),
            r.pattern() == pattern_text(StandardTestType::Domain),
            r.arguments() == seq![domain, role],
    {
        let mut arguments = Vec::new();
        arguments.push(domain);
        arguments.push(role);
        ReasoningTaskDescription::standard(true, StandardTestType::Domain, arguments)
    }

    pub fn is_range_of(range: TaskArgument, role: TaskArgument) -> (r: ReasoningTaskDescription)
        ensures
            r.flips(),
            r.pattern() == pattern_text(StandardTestType::Range),
            r.arguments() == seq![range, role],
    {
        let mut arguments = Vec::new();
        arguments.push(range);
        arguments.push(role);
        ReasoningTaskDescription::standard(true, StandardTestType::Range, arguments)
    }
}

/// `prefix` followed by ` and not({i})` for `i` from 1 to `n`.
fn list_text(prefix: &str, n: usize) -> (r: String)
    requires
        n + 1 < u64::MAX,
    ensures
        r@ == list_message(prefix@, n as int),
{
    let mut message = String::from_str(prefix);
    let mut index: usize = 0;
    while index < n
        invariant
            index <= n,
            n + 1 < u64::MAX,
            message@ == list_message(prefix@, index as int),
        decreases n - index,
    {
        message.append(" and not(");
        push_char(&mut message, '{');
        push_decimal(&mut message, (index + 1) as u64);
        push_char(&mut message, '}');
        message.append(")");
        proof {
            assert(message@ =~= list_message(prefix@, index + 1));
        }
        index = index + 1;
    }
    message
}

/// `first` followed by `rest`.
fn prepend(first: TaskArgument, rest: Vec<TaskArgument>) -> (r: Vec<TaskArgument>)
    ensures
        r@ == seq![first] + rest@,
{
    let ghost tail = rest@;
    let mut arguments: Vec<TaskArgument> = Vec::new();
    arguments.push(first);
    let mut rest = rest;
    arguments.append(&mut rest);
    assert(arguments@ =~= seq![first] + tail);
    arguments
}

/// Whether `pattern` occurs in `s` at character position `at`.
fn occurs_at(s: &str, length: usize, at: usize, pattern: &str, pattern_length: usize) -> (r: bool)
    requires
        length == s@.len(),
        pattern_length == pattern@.len(),
        at <= length,
    ensures
        r == (pattern_length <= length - at && s@.skip(at as int).take(pattern_length as int)
            == pattern@),
{
    if pattern_length > length - at {
        return false;
    }
    let mut j: usize = 0;
    while j < pattern_length
        invariant
            j <= pattern_length,
            pattern_length <= length - at,
            length == s@.len(),
            pattern_length == pattern@.len(),
            forall|k: int| 0 <= k < j ==> s@[at + k] == pattern@[k],
        decreases pattern_length - j,
    {
        if s.get_char(at + j) != pattern.get_char(j) {
            assert(s@.skip(at as int).take(pattern_length as int)[j as int] != pattern@[j as int]);
            return false;
        }
        j = j + 1;
    }
    assert(s@.skip(at as int).take(pattern_length as int) =~= pattern@);
    true
}

/// `s` with every occurrence of the non-empty `pattern` replaced by
/// `replacement`, from left to right.
fn replace_all_text(s: &String, pattern: &String, replacement: &String) -> (r: String)
    requires
        pattern@.len() > 0,
    ensures
        r@ == replace_all(s@, pattern@, replacement@),
{
    let text = s.as_str();
    let pat = pattern.as_str();
    let length = text.unicode_len();
    let pattern_length = pat.unicode_len();
    let mut result = String::new();
    let mut i: usize = 0;
    assert(s@.skip(0) =~= s@);
    assert(result@ + replace_all(s@.skip(0), pattern@, replacement@) =~= replace_all(
        s@,
        pattern@,
        replacement@,
    ));
    while i < length
        invariant
            i <= length,
            length == s@.len(),
            pattern_length == pattern@.len(),
            pattern_length > 0,
            text@ == s@,
            pat@ == pattern@,
            result@ + replace_all(s@.skip(i as int), pattern@, replacement@) == replace_all(
                s@,
                pattern@,
                replacement@,
            ),
        decreases length - i,
    {
        let ghost rest = s@.skip(i as int);
        if occurs_at(text, length, i, pat, pattern_length) {
            assert(rest.skip(pattern_length as int) =~= s@.skip(i + pattern_length));
            result.append(replacement.as_str());
            proof {
                assert(result@ + replace_all(s@.skip(i + pattern_length), pattern@, replacement@)
                    =~= replace_all(s@, pattern@, replacement@));
            }
            i = i + pattern_length;
        } else {
            let c = text.get_char(i);
            assert(rest.skip(1) =~= s@.skip(i + 1));
            assert(rest[0] == c);
            push_char(&mut result, c);
            proof {
                assert(result@ + replace_all(s@.skip(i + 1), pattern@, replacement@) =~= replace_all(
                    s@,
                    pattern@,
                    replacement@,
                ));
            }
            i = i + 1;
        }
    }
    assert(s@.skip(length as int) =~= Seq::<char>::empty());
    assert(result@ =~= result@ + replace_all(s@.skip(length as int), pattern@, replacement@));
    result
}

} // verus!
