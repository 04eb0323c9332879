use trill::CompileError;
use trill::Criterion;
use trill::Delivery;
use trill::Instruction;
use trill::LexicalError;
use trill::Name;
use trill::Operation;
use trill::ParseError;
use trill::Predicate;
use trill::Props;
use trill::Response;
use trill::ResponseEngine;
use trill::ResponseGroup;
use trill::Rule;
use trill::ScriptCompiler;
use trill::ScriptReport;
use trill::Token;
use trill::Value;

fn num(x: f32) -> Value {
    Value::Num(x.to_bits())
}

fn compile(script: &str, partition_variables: &[&str]) -> (Option<ResponseEngine>, ScriptReport) {
    let mut compiler = ScriptCompiler::new();
    for variable in partition_variables {
        compiler.add_partition_variable(variable);
    }
    compiler.with_module("script.trl", script).compile()
}

fn engine_of(script: &str, partition_variables: &[&str]) -> ResponseEngine {
    let (engine, report) = compile(script, partition_variables);
    assert!(report.parse_errors.is_empty(), "{:?}", report.parse_errors);
    assert!(report.compile_errors.is_empty(), "{:?}", report.compile_errors);
    engine.unwrap()
}

fn ask(engine: &mut ResponseEngine, request: &Props) -> Option<Vec<u8>> {
    let mut character = Props::new();
    let mut world = Props::new();
    let mut rng = rand::rng();
    engine
        .find_best_response(request, &mut character, &mut world, &mut rng)
        .map(|response| response.get(&Name::new("line")).unwrap().clone())
}

#[test]
fn compile_criterion_numeric_equals() {
    let script = "(criterion Name (variable == 0.0))";
    let (engine, _report) = ScriptCompiler::new().with_module("script.trl", script).compile();

    assert!(engine.is_some());
}

#[test]
fn compile_rule_response_group() {
    let script = r#"
            (rule RuleName () (GroupName))
            (response GroupName (line "test"))
        "#;
    let (engine, _report) = ScriptCompiler::new().with_module("script.trl", script).compile();

    assert!(engine.is_some());
}

#[test]
fn compile_script() {
    let script = r#"
            (criterion PlayerNear (distance_to_player in 0..500))
            (criterion ConceptTalkStare (concept == talk_stare) weight 5)
            (criterion IsCitizen (class_name == citizen))
            (criterion IsMiles (target_name == miles))
            (criterion NPCIdle (npc_state == idle))

            (rule CitizenTalkStare (ConceptTalkStare IsCitizen NPCIdle) (CitizenTalkStare))
            (rule MilesTalkStare (ConceptTalkStare IsCitizen NPCIdle IsMiles) (MilesTalkStare))

            (response MilesTalkStare
                (line "Oh hi! I'm Miles"))

            (response CitizenTalkStare shuffle
                (line "What are you looking at, punk?")
                (line "Hey you, get going.")
                (line "What you staring at me for?")
                (line "Do I know you?")
                (line "You waiting for somebody or something?"))
        "#;

    let (engine, _report) = ScriptCompiler::new()
        .with_partition_variable("concept")
        .with_module("script.trl", script)
        .compile();

    let mut engine = engine.unwrap();

    let mut actor = Props::new()
        .with(Name::new("distance_to_player"), num(20.0))
        .with(Name::new("class_name"), Value::text("citizen"))
        .with(Name::new("target_name"), Value::text("miles"))
        .with(Name::new("npc_state"), Value::text("idle"));

    let query = Props::new().with(Name::new("concept"), Value::text("talk_stare"));

    let mut world = Props::new();
    let mut rng = rand::rng();
    let resp = engine.find_best_response(&query, &mut actor, &mut world, &mut rng).unwrap();

    let line = resp.get(&Name::new("line")).unwrap();

    assert_eq!(line.as_slice(), "Oh hi! I'm Miles".as_bytes());
}

#[test]
fn strict_partitioning_answers_from_the_bucket_of_the_concept() {
    let script = r#"
        (criterion ConceptTalk (concept == talk) weight 5)
        (criterion IsCitizen (class == citizen))
        (rule R1 (ConceptTalk IsCitizen) (G1))
        (response G1 shuffle (line "hi"))
    "#;
    let mut engine = engine_of(script, &["concept"]);
    // The rule stands in one bucket, and only the criterion on `class` is
    // left to test at run time.
    assert_eq!(engine.rules.partitions.len(), 1);
    let rule = &engine.rules.partitions[0].rules[0];
    assert_eq!(rule.criteria.len(), 1);
    assert_eq!(engine.criteria[rule.criteria[0]].variable.as_bytes(), b"class");
    assert_eq!(rule.score, 6.0f32.to_bits());

    let request = Props::new()
        .with(Name::new("concept"), Value::text("talk"))
        .with(Name::new("class"), Value::text("citizen"));
    assert_eq!(ask(&mut engine, &request), Some(b"hi".to_vec()));

    // Without the partition variable the bucket is not looked at.
    let request = Props::new().with(Name::new("class"), Value::text("citizen"));
    assert_eq!(ask(&mut engine, &request), None);

    // With another value of the partition variable neither.
    let request = Props::new()
        .with(Name::new("concept"), Value::text("shout"))
        .with(Name::new("class"), Value::text("citizen"));
    assert_eq!(ask(&mut engine, &request), None);
}

#[test]
fn rules_of_equal_score_are_chosen_about_equally_often() {
    let script = r#"
        (criterion IsCitizen (class == citizen))
        (rule A (IsCitizen) (GA))
        (rule B (IsCitizen) (GB))
        (response GA random (line "a"))
        (response GB random (line "b"))
    "#;
    let mut engine = engine_of(script, &[]);
    let request = Props::new().with(Name::new("class"), Value::text("citizen"));
    let mut a = 0;
    let mut b = 0;
    for _ in 0..2000 {
        match ask(&mut engine, &request).unwrap().as_slice() {
            b"a" => a += 1,
            b"b" => b += 1,
            other => panic!("unexpected line {:?}", other),
        }
    }
    assert_eq!(a + b, 2000);
    assert!(a > 800 && b > 800, "a = {}, b = {}", a, b);
}

#[test]
fn a_depleted_group_switches_its_rule_off() {
    let script = r#"
        (rule R () (G))
        (response G deplete (line "one") (line "two"))
    "#;
    let mut engine = engine_of(script, &[]);
    let request = Props::new();
    let first = ask(&mut engine, &request).unwrap();
    let second = ask(&mut engine, &request).unwrap();
    let mut both = vec![first, second];
    both.sort();
    assert_eq!(both, vec![b"one".to_vec(), b"two".to_vec()]);
    assert!(!engine.rules.partitions[0].rules[0].enabled);
    assert_eq!(ask(&mut engine, &request), None);
}

#[test]
fn a_list_gives_each_response_once_and_then_nothing() {
    let script = r#"
        (rule R () (G))
        (response G list (line "one") (line "two"))
    "#;
    let mut engine = engine_of(script, &[]);
    let request = Props::new();
    assert_eq!(ask(&mut engine, &request), Some(b"one".to_vec()));
    assert_eq!(ask(&mut engine, &request), Some(b"two".to_vec()));
    assert_eq!(ask(&mut engine, &request), None);
    assert_eq!(ask(&mut engine, &request), None);
}

#[test]
fn a_loop_starts_over_after_its_last_response() {
    let script = r#"
        (rule R () (G))
        (response G loop (line "A") (line "B") (line "C"))
    "#;
    let mut engine = engine_of(script, &[]);
    let request = Props::new();
    assert_eq!(ask(&mut engine, &request), Some(b"A".to_vec()));
    assert_eq!(ask(&mut engine, &request), Some(b"B".to_vec()));
    assert_eq!(ask(&mut engine, &request), Some(b"C".to_vec()));
    assert_eq!(ask(&mut engine, &request), Some(b"A".to_vec()));
}

#[test]
fn a_shuffle_gives_every_response_before_it_repeats_one() {
    let script = r#"
        (rule R () (G))
        (response G shuffle (line "a") (line "b") (line "c"))
    "#;
    let mut engine = engine_of(script, &[]);
    let request = Props::new();
    let mut round: Vec<Vec<u8>> = (0..3).map(|_| ask(&mut engine, &request).unwrap()).collect();
    let last = round[2].clone();
    round.sort();
    assert_eq!(round, vec![b"a".to_vec(), b"b".to_vec(), b"c".to_vec()]);
    // The next round leaves out the response that was given last.
    let next = ask(&mut engine, &request).unwrap();
    assert_ne!(next, last);
}

fn matches_x(script: &str, x: f32) -> bool {
    let full = format!("{} (rule R (C) (G)) (response G random (line \"yes\"))", script);
    let mut engine = engine_of(&full, &[]);
    let request = Props::new().with(Name::new("x"), num(x));
    ask(&mut engine, &request).is_some()
}

#[test]
fn an_exclusive_range_leaves_its_upper_bound_out() {
    let script = "(criterion C (x in 0..10))";
    assert!(!matches_x(script, 10.0));
    assert!(matches_x(script, 9.999999));
    assert!(matches_x(script, 10.0f32.next_down()));
    assert!(matches_x(script, 0.0));
    assert!(!matches_x(script, -0.5));
    assert!(!matches_x(script, f32::NAN));
}

#[test]
fn an_inclusive_range_lets_its_upper_bound_in() {
    let script = "(criterion C (x in 0..=10))";
    assert!(matches_x(script, 10.0));
    assert!(!matches_x(script, 10.0f32.next_up()));
    assert!(matches_x(script, 0.0));
}

#[test]
fn open_ended_ranges_match_on_their_open_side() {
    assert!(matches_x("(criterion C (x in ..5))", -1.0e30));
    assert!(matches_x("(criterion C (x in ..5))", f32::NEG_INFINITY));
    assert!(!matches_x("(criterion C (x in ..5))", 5.0));
    assert!(matches_x("(criterion C (x in ..=5))", 5.0));
    assert!(!matches_x("(criterion C (x in ..=5))", 5.5));
    assert!(matches_x("(criterion C (x in 5..))", 5.0));
    assert!(matches_x("(criterion C (x in 5..))", f32::INFINITY));
    assert!(!matches_x("(criterion C (x in 5..))", 4.5));
    assert!(matches_x("(criterion C (x in ..))", 123.0));
    assert!(matches_x("(criterion C (x in ..))", f32::NEG_INFINITY));
    assert!(!matches_x("(criterion C (x in ..))", f32::NAN));
}

#[test]
fn a_number_criterion_asks_for_the_number() {
    assert!(matches_x("(criterion C (x == 2.5))", 2.5));
    assert!(!matches_x("(criterion C (x == 2.5))", 2.0));
    assert!(matches_x("(criterion C (x == -1e2))", -100.0));
    assert!(matches_x("(criterion C (x == 0))", -0.0));
}

#[test]
fn strings_are_compared_with_their_case() {
    let script = r#"
        (criterion Has (target == miles))
        (rule R (Has) (G))
        (response G random (line "yes"))
    "#;
    let mut engine = engine_of(script, &[]);
    let request = Props::new().with(Name::new("target"), Value::text("miles"));
    assert_eq!(ask(&mut engine, &request), Some(b"yes".to_vec()));
    let request = Props::new().with(Name::new("target"), Value::text("Miles"));
    assert_eq!(ask(&mut engine, &request), None);
    let request = Props::new();
    assert_eq!(ask(&mut engine, &request), None);
}

#[test]
fn a_boolean_criterion_asks_for_the_boolean() {
    let script = r#"
        (criterion On (lit == true))
        (rule R (On) (G))
        (response G random (line "yes"))
    "#;
    let mut engine = engine_of(script, &[]);
    let request = Props::new().with(Name::new("lit"), Value::Bool(true));
    assert_eq!(ask(&mut engine, &request), Some(b"yes".to_vec()));
    let request = Props::new().with(Name::new("lit"), Value::Bool(false));
    assert_eq!(ask(&mut engine, &request), None);
}

#[test]
fn a_rule_without_criteria_always_matches() {
    let script = r#"
        (rule R () (G))
        (response G random (line "always"))
    "#;
    let mut engine = engine_of(script, &[]);
    assert_eq!(engine.rules.partitions[0].rules[0].score, 0.0f32.to_bits());
    assert_eq!(ask(&mut engine, &Props::new()), Some(b"always".to_vec()));
    let request = Props::new().with(Name::new("anything"), num(1.0));
    assert_eq!(ask(&mut engine, &request), Some(b"always".to_vec()));
}

#[test]
fn the_rule_with_the_higher_score_wins() {
    let script = r#"
        (criterion A (a == 1) weight 2.5)
        (criterion B (b == 1))
        (rule Low (B) (GLow))
        (rule High (A B) (GHigh))
        (response GLow random (line "low"))
        (response GHigh random (line "high"))
    "#;
    let mut engine = engine_of(script, &[]);
    let rules = &engine.rules.partitions[0].rules;
    assert_eq!(rules[0].score, 3.5f32.to_bits());
    assert_eq!(rules[1].score, 1.0f32.to_bits());
    let both = Props::new().with(Name::new("a"), num(1.0)).with(Name::new("b"), num(1.0));
    assert_eq!(ask(&mut engine, &both), Some(b"high".to_vec()));
    let only_b = Props::new().with(Name::new("b"), num(1.0));
    assert_eq!(ask(&mut engine, &only_b), Some(b"low".to_vec()));
}

#[test]
fn instructions_change_the_character_and_the_world() {
    let script = r#"
        (rule R () (G)
            seen :! true_before := true count :+ 2 debt :- 1.5 mood := happy
            $alarm := true $level := 3 $visits :+ 1)
        (response G random (line "done"))
    "#;
    let mut engine = engine_of(script, &[]);
    let mut character = Props::new()
        .with(Name::new("seen"), Value::Bool(true))
        .with(Name::new("count"), num(40.0));
    let mut world = Props::new().with(Name::new("visits"), Value::text("many"));
    let mut rng = rand::rng();
    let request = Props::new();
    assert!(engine.find_best_response(&request, &mut character, &mut world, &mut rng).is_some());
    assert!(character.get(&Name::new("seen")).equals(&Value::Bool(false)));
    assert!(character.get(&Name::new("true_before")).equals(&Value::Bool(true)));
    assert!(character.get(&Name::new("count")).equals(&num(42.0)));
    assert!(character.get(&Name::new("debt")).equals(&num(-1.5)));
    assert!(character.get(&Name::new("mood")).equals(&Value::text("happy")));
    assert!(world.get(&Name::new("alarm")).equals(&Value::Bool(true)));
    assert!(world.get(&Name::new("level")).equals(&num(3.0)));
    // Adding to what is no number takes it for zero.
    assert!(world.get(&Name::new("visits")).equals(&num(1.0)));
    assert!(character.get_value(&Name::new("alarm")).is_none());
    // The string that was set is known to the encoder.
    assert!(engine.encoder.find(&Name::new("happy")).is_some());
    // Toggling what is no boolean makes it true.
    let mut character = Props::new().with(Name::new("seen"), num(7.0));
    assert!(engine.find_best_response(&request, &mut character, &mut world, &mut rng).is_some());
    assert!(character.get(&Name::new("seen")).equals(&Value::Bool(true)));
    assert!(world.get(&Name::new("visits")).equals(&num(2.0)));
}

#[test]
fn the_request_is_asked_before_the_character_and_the_world() {
    let script = r#"
        (criterion Red (colour == red))
        (rule R (Red) (G))
        (response G random (line "red"))
    "#;
    let mut engine = engine_of(script, &[]);
    let request = Props::new().with(Name::new("colour"), Value::text("red"));
    let mut character = Props::new().with(Name::new("colour"), Value::text("blue"));
    let mut world = Props::new();
    let mut rng = rand::rng();
    assert!(engine.find_best_response(&request, &mut character, &mut world, &mut rng).is_some());
    let request = Props::new().with(Name::new("colour"), Value::text("blue"));
    let mut character = Props::new().with(Name::new("colour"), Value::text("red"));
    assert!(engine.find_best_response(&request, &mut character, &mut world, &mut rng).is_none());
    let request = Props::new();
    let mut world = Props::new().with(Name::new("colour"), Value::text("red"));
    let mut character = Props::new();
    assert!(engine.find_best_response(&request, &mut character, &mut world, &mut rng).is_some());
}

#[test]
fn a_weight_is_taken_out_of_its_response() {
    let script = r#"
        (rule R () (G))
        (response G random (line "never" weight "0") (line "ever" weight "2.5"))
    "#;
    let mut engine = engine_of(script, &[]);
    let group = &engine.response_groups[0];
    assert!(group.responses[0].get(&Name::new("weight")).is_none());
    assert!(group.responses[1].get(&Name::new("line")).is_some());
    match &group.dispatcher {
        trill::ResponseDispatcher::Random { weights } => {
            assert_eq!(weights, &vec![0.0f32.to_bits(), 2.5f32.to_bits()]);
        }
        other => panic!("unexpected dispatcher {:?}", other),
    }
    for _ in 0..50 {
        assert_eq!(ask(&mut engine, &Props::new()), Some(b"ever".to_vec()));
    }
}

#[test]
fn a_weight_that_is_no_number_is_reported() {
    let script = r#"
        (rule R () (G))
        (response G (line "a" weight "heavy"))
    "#;
    let (engine, report) = compile(script, &[]);
    assert!(engine.is_none());
    assert_eq!(report.compile_errors.len(), 1);
    match &report.compile_errors[0] {
        CompileError::InvalidWeightString { string, in_response_group } => {
            assert_eq!(string.as_slice(), b"heavy");
            assert_eq!(in_response_group.as_bytes(), b"G");
        }
        other => panic!("unexpected error {:?}", other),
    }
}

#[test]
fn a_criterion_that_is_not_defined_is_reported() {
    let script = r#"
        (rule R (Nowhere) (G))
        (response G (line "a"))
    "#;
    let (engine, report) = compile(script, &[]);
    assert!(engine.is_none());
    assert_eq!(report.compile_errors.len(), 1);
    match &report.compile_errors[0] {
        CompileError::MissingCriterion { criterion_name, in_rule } => {
            assert_eq!(criterion_name.as_bytes(), b"Nowhere");
            assert_eq!(in_rule.as_bytes(), b"R");
        }
        other => panic!("unexpected error {:?}", other),
    }
}

#[test]
fn a_response_group_that_is_not_defined_is_reported() {
    let (engine, report) = compile("(rule R () (Nowhere))", &[]);
    assert!(engine.is_none());
    assert_eq!(report.compile_errors.len(), 1);
    match &report.compile_errors[0] {
        CompileError::MissingResponseGroup { group_name, in_rule } => {
            assert_eq!(group_name.as_bytes(), b"Nowhere");
            assert_eq!(in_rule.as_bytes(), b"R");
        }
        other => panic!("unexpected error {:?}", other),
    }
}

#[test]
fn a_variable_that_a_rule_tests_twice_is_reported_once() {
    let script = r#"
        (criterion A (x == 1))
        (criterion B (x == 2))
        (criterion C (x == 3))
        (rule R (A B C) (G))
        (response G (line "a"))
    "#;
    let (engine, report) = compile(script, &[]);
    assert!(engine.is_none());
    assert_eq!(report.compile_errors.len(), 1);
    match &report.compile_errors[0] {
        CompileError::RepeatedVariable { criterion_name, in_rule } => {
            assert_eq!(criterion_name.as_bytes(), b"B");
            assert_eq!(in_rule.as_bytes(), b"R");
        }
        other => panic!("unexpected error {:?}", other),
    }
}

#[test]
fn a_variable_of_two_kinds_is_reported_with_its_uses() {
    let script = r#"
        (criterion A (x == 1))
        (criterion B (y == true))
        (rule R (A) (G) x := happy)
        (response G (line "a"))
    "#;
    let (engine, report) = compile(script, &[]);
    assert!(engine.is_none());
    assert_eq!(report.compile_errors.len(), 1);
    match &report.compile_errors[0] {
        CompileError::IndeterminateVariableType { variable_name, usages } => {
            assert_eq!(variable_name.as_bytes(), b"x");
            assert_eq!(usages.len(), 2);
            assert_eq!(usages[0].infered_type, trill::Type::Num);
            assert_eq!(usages[1].infered_type, trill::Type::Str);
            assert!(matches!(&usages[0].location, trill::VariableLocation::Criterion(n) if n.as_bytes() == b"A"));
            assert!(matches!(&usages[1].location, trill::VariableLocation::Rule(n) if n.as_bytes() == b"R"));
        }
        other => panic!("unexpected error {:?}", other),
    }
}

#[test]
fn a_script_that_ends_early_is_reported() {
    let (engine, report) = compile("(criterion Name (variable == 0.0)", &[]);
    assert!(engine.is_none());
    assert!(report.compile_errors.is_empty());
    assert_eq!(report.parse_errors.len(), 1);
    assert_eq!(report.parse_errors[0].0, 0);
    assert!(matches!(report.parse_errors[0].1.error, ParseError::UnexpectedEof));
    assert_eq!(report.parse_errors[0].1.span.start, 33);
    assert_eq!(report.parse_errors[0].1.span.end, 33);
}

#[test]
fn a_token_out_of_place_is_reported_with_what_was_expected() {
    let (engine, report) = compile("(criterion name (variable == 0.0))", &[]);
    assert!(engine.is_none());
    assert_eq!(report.parse_errors.len(), 1);
    match &report.parse_errors[0].1.error {
        ParseError::UnexpectedToken { token, expected, hint } => {
            assert!(matches!(token, Token::Symbol(n) if n.as_bytes() == b"name"));
            assert_eq!(*expected, "an identifier");
            assert_eq!(*hint, Some("identifiers must begin with an upper-case ascii letter"));
        }
        other => panic!("unexpected error {:?}", other),
    }
    assert_eq!(report.parse_errors[0].1.span.start, 11);
    assert_eq!(report.parse_errors[0].1.span.end, 15);
}

#[test]
fn a_byte_that_starts_no_token_is_reported() {
    let (engine, report) = compile("(criterion Name (variable == 0.0)) #", &[]);
    assert!(engine.is_none());
    assert_eq!(report.parse_errors.len(), 1);
    match &report.parse_errors[0].1.error {
        ParseError::LexError { error } => assert_eq!(*error, LexicalError::LexicalError),
        other => panic!("unexpected error {:?}", other),
    }
    assert_eq!(report.parse_errors[0].1.span.start, 35);
    // What stood before the flaw was still noted.
    assert!(report.criterion_locations.get(&Name::new("Name")).is_some());
}

#[test]
fn a_flaw_in_one_module_does_not_stop_the_next() {
    let (engine, report) = ScriptCompiler::new()
        .with_module("one.trl", "(criterion A (x == 1)")
        .with_module("two.trl", "(criterion B (y == 1))")
        .with_module("three.trl", ")")
        .compile();
    assert!(engine.is_none());
    assert_eq!(report.parse_errors.len(), 2);
    assert_eq!(report.parse_errors[0].0, 0);
    assert_eq!(report.parse_errors[1].0, 2);
    let place = report.criterion_locations.get(&Name::new("B")).unwrap();
    assert_eq!(place.file_id, 1);
    assert_eq!((place.span.start, place.span.end), (0, 22));
    assert_eq!(report.files.len(), 3);
    assert_eq!(report.files[1].0.as_bytes(), b"two.trl");
}

#[test]
fn compiling_twice_gives_engines_that_are_alike() {
    let script = r#"
        (criterion ConceptTalk (concept == talk) weight 5)
        (criterion IsCitizen (class == citizen))
        (criterion Near (distance in 0..50) weight 0.5)
        (rule R1 (ConceptTalk IsCitizen) (G1))
        (rule R2 (ConceptTalk Near) (G1 G2) mood := calm)
        (rule R3 (IsCitizen) (G2))
        (response G1 shuffle (line "hi"))
        (response G2 list (line "a") (line "b"))
    "#;
    let one = engine_of(script, &["concept"]);
    let two = engine_of(script, &["concept"]);
    assert_eq!(format!("{:?}", one), format!("{:?}", two));
}

#[test]
fn the_groups_of_a_rule_are_asked_in_changing_order() {
    let script = r#"
        (rule R () (GA GB))
        (response GA random (line "a"))
        (response GB random (line "b"))
    "#;
    let mut engine = engine_of(script, &[]);
    let mut a = 0;
    let mut b = 0;
    for _ in 0..400 {
        match ask(&mut engine, &Props::new()).unwrap().as_slice() {
            b"a" => a += 1,
            b"b" => b += 1,
            other => panic!("unexpected line {:?}", other),
        }
    }
    assert!(a > 100 && b > 100, "a = {}, b = {}", a, b);
}

#[test]
fn a_random_group_gives_each_of_its_responses() {
    let script = r#"
        (rule R () (G))
        (response G random (line "a") (line "b" weight "3"))
    "#;
    let mut engine = engine_of(script, &[]);
    let mut a = 0;
    let mut b = 0;
    for _ in 0..2000 {
        match ask(&mut engine, &Props::new()).unwrap().as_slice() {
            b"a" => a += 1,
            b"b" => b += 1,
            other => panic!("unexpected line {:?}", other),
        }
    }
    assert!(a > 350 && a < 650, "a = {}, b = {}", a, b);
    assert_eq!(a + b, 2000);
}

#[test]
fn every_subset_of_the_partition_assignments_has_its_key() {
    let script = r#"
        (criterion A (a == 1))
        (criterion B (b == 2))
        (criterion C (c == 3))
        (rule None () (G))
        (rule OnlyA (A) (G))
        (rule OnlyB (B) (G))
        (rule Both (A B) (G))
        (rule All (A B C) (G))
        (response G random (line "x"))
    "#;
    let mut engine = engine_of(script, &["a", "b", "c", "unused"]);
    let vars: Vec<&[u8]> = engine.rules.vars.iter().map(|v| v.as_bytes()).collect();
    assert_eq!(vars, vec![&b"a"[..], &b"b"[..], &b"c"[..], &b"unused"[..]]);
    assert_eq!(engine.rules.partitions.len(), 5);
    for partition in &engine.rules.partitions {
        assert_eq!(partition.rules.len(), 1);
        assert!(partition.rules[0].criteria.is_empty());
    }
    let request = Props::new()
        .with(Name::new("a"), num(1.0))
        .with(Name::new("b"), num(2.0));
    let mut encoder = trill::Encoder::new();
    let mut query = trill::scanner::Query::build(&vec![&request], &mut encoder);
    let mut keys = engine.rules.get_partition_keys_for_query(&mut query);
    assert_eq!(keys.len(), 4);
    // The first key is that of no assignment at all.
    assert_eq!(keys[0], engine.rules.get_partition_key_for_assignments(&vec![]));
    keys.sort();
    keys.dedup();
    assert_eq!(keys.len(), 4);
    let found = keys.iter().filter(|k| engine.rules.get_partition(**k).is_some()).count();
    assert_eq!(found, 4);
    // The rule that asks most of what the request gives answers.
    let best = engine.best_rules_for_keys(&mut query, &keys);
    assert_eq!(best.len(), 1);
    let rule = &engine.rules.partitions[best[0].0].rules[best[0].1];
    assert_eq!(rule.score, 2.0f32.to_bits());
    // With `c` in the request as well, the rule on all three does.
    let request = request.with(Name::new("c"), num(3.0));
    let mut query = trill::scanner::Query::build(&vec![&request], &mut encoder);
    let keys = engine.rules.get_partition_keys_for_query(&mut query);
    assert_eq!(keys.len(), 8);
    let best = engine.best_rules_for_keys(&mut query, &keys);
    assert_eq!(best.len(), 1);
    assert_eq!(engine.rules.partitions[best[0].0].rules[best[0].1].score, 3.0f32.to_bits());
    // A request that gives `b` another value misses the rules that ask for 2.
    let request = Props::new()
        .with(Name::new("a"), num(1.0))
        .with(Name::new("b"), num(5.0));
    let mut query = trill::scanner::Query::build(&vec![&request], &mut encoder);
    let keys = engine.rules.get_partition_keys_for_query(&mut query);
    let best = engine.best_rules_for_keys(&mut query, &keys);
    assert_eq!(best.len(), 1);
    assert_eq!(engine.rules.partitions[best[0].0].rules[best[0].1].score, 1.0f32.to_bits());
    assert_eq!(ask(&mut engine, &request), Some(b"x".to_vec()));
}

#[test]
fn the_rules_of_a_bucket_come_in_descending_order_of_score() {
    let script = r#"
        (criterion A (a == 1) weight 0.5)
        (criterion B (b == 1) weight 4)
        (criterion C (c == 1) weight 2)
        (criterion D (d in 0..1) weight 2)
        (rule R1 (A) (G))
        (rule R2 (B) (G))
        (rule R3 (C) (G))
        (rule R4 (A B C) (G))
        (rule R5 (D C) (G))
        (rule R6 () (G))
        (response G random (line "x"))
    "#;
    let engine = engine_of(script, &[]);
    assert_eq!(engine.rules.partitions.len(), 1);
    let scores: Vec<f32> =
        engine.rules.partitions[0].rules.iter().map(|r| f32::from_bits(r.score)).collect();
    assert_eq!(scores, vec![6.5, 4.0, 4.0, 2.0, 0.5, 0.0]);
    for rule in &engine.rules.partitions[0].rules {
        let variables: Vec<&[u8]> =
            rule.criteria.iter().map(|c| engine.criteria[*c].variable.as_bytes()).collect();
        let mut sorted = variables.clone();
        sorted.sort();
        sorted.dedup();
        assert_eq!(variables, sorted);
    }
}

fn response(line: &str) -> Response {
    let mut response = Response::new();
    response.insert(Name::new("line"), line.as_bytes().to_vec());
    response
}

#[test]
fn an_engine_is_built_from_definitions() {
    let mut compiler = ResponseEngine::build();
    compiler.with_partition_variable(Name::new("concept"));
    compiler.with_partition_variable(Name::new("never_used"));
    compiler.with_criterion(
        Name::new("Talk"),
        Criterion {
            variable: Name::new("concept"),
            predicate: Predicate::StrEqual(Name::new("talk")),
            weight: 5.0f32.to_bits(),
        },
    );
    compiler.with_criterion(
        Name::new("Near"),
        Criterion {
            variable: Name::new("distance"),
            predicate: Predicate::NumRange(Some(0.0f32.to_bits()), Some(50.0f32.to_bits())),
            weight: 1.0f32.to_bits(),
        },
    );
    compiler.with_rule(
        Name::new("Greet"),
        Rule {
            criteria: vec![Name::new("Talk"), Name::new("Near")],
            response_groups: vec![Name::new("Hello")],
            instructions: vec![
                Instruction {
                    variable: Name::new("greeted"),
                    global: false,
                    operation: Operation::BoolSet(false),
                },
                Instruction {
                    variable: Name::new("greeted"),
                    global: false,
                    operation: Operation::BoolSet(true),
                },
                Instruction {
                    variable: Name::new("greetings"),
                    global: true,
                    operation: Operation::NumAdd(1.0f32.to_bits()),
                },
            ],
        },
    );
    compiler.with_response_group(
        Name::new("Hello"),
        ResponseGroup { delivery: Delivery::Loop, responses: vec![response("hello"), response("hi")] },
    );
    let (engine, report) = compiler.finish();
    assert!(report.errors.is_empty());
    let mut engine = engine.unwrap();
    assert_eq!(engine.criteria.len(), 2);
    // The criteria stand in ascending order of their names.
    assert_eq!(engine.criteria[0].variable.as_bytes(), b"distance");
    assert_eq!((engine.criteria[0].min, engine.criteria[0].max), (0.0f32.to_bits(), 50.0f32.to_bits()));
    assert_eq!(engine.criteria[1].variable.as_bytes(), b"concept");
    assert_eq!(engine.criteria[1].min, engine.criteria[1].max);
    assert_eq!(Some(engine.criteria[1].min), engine.encoder.find(&Name::new("talk")));
    let rule = &engine.rules.partitions[0].rules[0];
    assert_eq!(rule.criteria, vec![0]);
    assert_eq!(rule.response_groups, vec![0]);
    assert_eq!(rule.score, 6.0f32.to_bits());
    assert!(rule.enabled);
    // Of two instructions on one variable the last one stands.
    assert_eq!(rule.instructions.len(), 2);
    assert!(matches!(
        rule.instructions.get(&Name::new("greeted")),
        Some((false, Operation::BoolSet(true)))
    ));
    assert_eq!(
        engine.rules.partitions[0].key,
        engine
            .rules
            .get_partition_key_for_assignments(&vec![(Name::new("concept"), engine.criteria[1].min)])
    );

    let request = Props::new().with(Name::new("concept"), Value::text("talk"));
    let mut character = Props::new().with(Name::new("distance"), num(20.0));
    let mut world = Props::new();
    let mut rng = rand::rng();
    let line = |r: Option<&Response>| r.map(|r| r.get(&Name::new("line")).unwrap().clone());
    let got = line(engine.find_best_response(&request, &mut character, &mut world, &mut rng));
    assert_eq!(got, Some(b"hello".to_vec()));
    let got = line(engine.find_best_response(&request, &mut character, &mut world, &mut rng));
    assert_eq!(got, Some(b"hi".to_vec()));
    assert!(character.get(&Name::new("greeted")) == Value::Bool(true));
    assert!(world.get(&Name::new("greetings")) == num(2.0));
    let mut far = Props::new().with(Name::new("distance"), num(50.5));
    assert!(engine.find_best_response(&request, &mut far, &mut world, &mut rng).is_none());
    assert!(far.get_value(&Name::new("greeted")).is_none());
}

#[test]
fn a_later_definition_takes_the_place_of_an_earlier_one() {
    let script = r#"
        (criterion C (x == 1))
        (criterion C (x == 2))
        (rule R (C) (G))
        (response G (line "old"))
        (response G random (line "new"))
    "#;
    let mut engine = engine_of(script, &[]);
    assert_eq!(engine.criteria.len(), 1);
    assert_eq!(engine.response_groups.len(), 1);
    assert_eq!(ask(&mut engine, &Props::new().with(Name::new("x"), num(1.0))), None);
    assert_eq!(
        ask(&mut engine, &Props::new().with(Name::new("x"), num(2.0))),
        Some(b"new".to_vec())
    );
}
