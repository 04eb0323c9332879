use trill::dispatch::weighted_pick;
use trill::hashing::partition_key;
use trill::lexer::next_lexeme;
use trill::literal::parse_weight;
use trill::name::Placement;
use trill::num;
use trill::scanner::Query;
use trill::scanner::Scanner;
use trill::table::Table;
use trill::AddSpan;
use trill::Definition;
use trill::Delivery;
use trill::Encoder;
use trill::LexicalError;
use trill::Name;
use trill::Operation;
use trill::ParseError;
use trill::Parser;
use trill::Predicate;
use trill::Props;
use trill::ResponseDispatcher;
use trill::Span;
use trill::Spanned;
use trill::Token;
use trill::Type;
use trill::Value;

fn bits(x: f32) -> u32 {
    x.to_bits()
}

fn num_value(x: f32) -> Value {
    Value::Num(x.to_bits())
}

const SAMPLES: [f32; 17] = [
    0.0,
    -0.0,
    1.0,
    -1.0,
    0.5,
    9.999999,
    10.0,
    -3.25,
    f32::MIN,
    f32::MAX,
    f32::MIN_POSITIVE,
    1.0e-45,
    -1.0e-45,
    f32::INFINITY,
    f32::NEG_INFINITY,
    f32::NAN,
    123456.79,
];

#[test]
fn numbers_compare_as_floats_do() {
    for a in SAMPLES {
        for b in SAMPLES {
            assert_eq!(num::check_le(bits(a), bits(b)), a <= b, "{} <= {}", a, b);
            assert_eq!(num::check_lt(bits(a), bits(b)), a < b, "{} < {}", a, b);
            assert_eq!(num::check_eq(bits(a), bits(b)), a == b, "{} == {}", a, b);
            assert_eq!(
                num::total_rank_of(bits(a)) < num::total_rank_of(bits(b)),
                a.total_cmp(&b) == std::cmp::Ordering::Less,
                "{} before {}",
                a,
                b
            );
        }
        assert_eq!(num::check_is_nan(bits(a)), a.is_nan());
        assert_eq!(num::check_is_finite(bits(a)), a.is_finite());
    }
}

#[test]
fn steps_go_to_the_neighbouring_number() {
    for a in SAMPLES {
        assert_eq!(num::step_up(bits(a)), bits(a.next_up()), "up from {}", a);
        assert_eq!(num::step_down(bits(a)), bits(a.next_down()), "down from {}", a);
        assert_eq!(num::negate(bits(a)), bits(-a), "minus {}", a);
    }
    assert_eq!(num::step_down(bits(10.0)), 0x411f_ffff);
    assert_eq!(num::step_up(bits(0.0)), 1);
    assert_eq!(num::from_bool(false), bits(0.0));
    assert_eq!(num::from_bool(true), bits(1.0));
}

#[test]
fn the_constants_are_the_numbers_they_are_named_after() {
    assert_eq!(num::ZERO, bits(0.0));
    assert_eq!(num::ONE, bits(1.0));
    assert_eq!(num::INFINITY, bits(f32::INFINITY));
    assert_eq!(num::NEG_INFINITY, bits(f32::NEG_INFINITY));
    assert_eq!(num::MIN, bits(f32::MIN));
    assert_eq!(num::MAX, bits(f32::MAX));
    assert!(f32::from_bits(num::NAN).is_nan());
    assert_eq!(trill::dispatch::NEG_ONE, bits(-1.0));
}

fn as_f32(value: Value) -> f32 {
    match value {
        Value::Num(n) => f32::from_bits(n),
        other => panic!("no number: {:?}", other),
    }
}

#[test]
fn values_add_subtract_multiply_and_divide() {
    let a = num_value(1.5);
    let b = num_value(2.25);
    let word = Value::text("word");
    let yes = Value::Bool(true);
    assert_eq!(as_f32(a.plus(&b)), 3.75);
    assert_eq!(as_f32(a.minus(&b)), -0.75);
    assert_eq!(as_f32(a.times(&b)), 3.375);
    assert_eq!(as_f32(b.over(&a)), 1.5);
    assert_eq!(as_f32(num_value(0.1).plus(&num_value(0.2))), 0.1f32 + 0.2f32);
    assert_eq!(as_f32(num_value(1.0).over(&num_value(3.0))), 1.0f32 / 3.0f32);
    assert_eq!(as_f32(num_value(1.0e30).times(&num_value(1.0e30))), f32::INFINITY);
    assert!(as_f32(num_value(0.0).over(&num_value(0.0))).is_nan());
    // What is no number counts as absent.
    assert_eq!(as_f32(a.plus(&word)), 1.5);
    assert_eq!(as_f32(word.plus(&b)), 2.25);
    assert_eq!(as_f32(word.plus(&yes)), 0.0);
    assert_eq!(as_f32(a.minus(&word)), 1.5);
    assert_eq!(as_f32(word.minus(&b)), -2.25);
    assert_eq!(as_f32(a.times(&word)), 0.0);
    assert_eq!(as_f32(word.times(&a)), 0.0);
    // Dividing by what is no number leaves the number as it is.
    assert_eq!(as_f32(a.over(&word)), 1.5);
    assert_eq!(as_f32(word.over(&a)), 0.0);
    assert_eq!(as_f32(word.over(&yes)), 0.0);
}

#[test]
fn values_are_equal_only_within_a_case() {
    assert!(Value::Bool(true).equals(&Value::Bool(true)));
    assert!(!Value::Bool(true).equals(&Value::Bool(false)));
    assert!(num_value(2.0).equals(&num_value(2.0)));
    assert!(num_value(0.0).equals(&num_value(-0.0)));
    assert!(!num_value(f32::NAN).equals(&num_value(f32::NAN)));
    assert!(Value::text("a").equals(&Value::text("a")));
    assert!(!Value::text("a").equals(&Value::text("A")));
    assert!(!Value::Bool(false).equals(&num_value(0.0)));
    assert!(!Value::text("1").equals(&num_value(1.0)));
    assert!(Value::default().equals(&Value::Bool(false)));
}

#[test]
fn values_are_ordered_only_within_a_case() {
    assert_eq!(Value::Bool(false).placement(&Value::Bool(true)), Some(Placement::Before));
    assert_eq!(Value::Bool(true).placement(&Value::Bool(true)), Some(Placement::Same));
    assert_eq!(num_value(2.0).placement(&num_value(1.0)), Some(Placement::After));
    assert_eq!(num_value(-0.0).placement(&num_value(0.0)), Some(Placement::Same));
    assert_eq!(num_value(f32::NAN).placement(&num_value(1.0)), None);
    assert_eq!(Value::text("abc").placement(&Value::text("abd")), Some(Placement::Before));
    assert_eq!(Value::text("ab").placement(&Value::text("abc")), Some(Placement::Before));
    assert_eq!(Value::text("b").placement(&Value::text("abc")), Some(Placement::After));
    assert_eq!(Value::text("b").placement(&num_value(1.0)), None);
    assert_eq!(Value::Bool(true).placement(&Value::text("true")), None);
}

#[test]
fn values_give_what_they_hold_or_the_default_of_what_is_asked() {
    assert!(Value::Bool(true).as_bool());
    assert!(!num_value(1.0).as_bool());
    assert_eq!(num_value(2.5).as_num(), bits(2.5));
    assert_eq!(Value::text("x").as_num(), bits(0.0));
    assert_eq!(Value::text("x").as_name().as_bytes(), b"x");
    assert_eq!(Value::Bool(true).as_name().as_bytes(), b"");
}

#[test]
fn names_are_ordered_as_their_strings_are() {
    let words = ["", "a", "A", "ab", "abc", "b", "concept", "class", "z", "é", "zz"];
    for a in words {
        for b in words {
            let expected = match a.cmp(b) {
                std::cmp::Ordering::Less => Placement::Before,
                std::cmp::Ordering::Equal => Placement::Same,
                std::cmp::Ordering::Greater => Placement::After,
            };
            assert_eq!(Name::new(a).placement(&Name::new(b)), expected, "{:?} and {:?}", a, b);
            assert_eq!(Name::new(a).same(&Name::new(b)), a == b);
            assert_eq!(Name::new(a).is(b.as_bytes()), a == b);
        }
        assert_eq!(Name::new(a).len(), a.len());
        assert_eq!(Name::new(a).duplicate().as_bytes(), a.as_bytes());
        assert_eq!(Name::from_slice(a.as_bytes()).as_bytes(), a.as_bytes());
        assert_eq!(Name::from_bytes(a.as_bytes().to_vec()).as_bytes(), a.as_bytes());
    }
}

#[test]
fn props_keep_their_names_in_ascending_order() {
    let mut props = Props::new();
    for word in ["pear", "apple", "zebra", "fig", "apple", "banana"] {
        props.set(Name::new(word), Value::text(word));
    }
    let keys: Vec<Vec<u8>> = props.keys().iter().map(|k| k.as_bytes().to_vec()).collect();
    assert_eq!(
        keys,
        vec![
            b"apple".to_vec(),
            b"banana".to_vec(),
            b"fig".to_vec(),
            b"pear".to_vec(),
            b"zebra".to_vec()
        ]
    );
    assert_eq!(props.len(), 5);
    assert_eq!(props.name_at(2).as_bytes(), b"fig");
    assert!(props.value_at(2).equals(&Value::text("fig")));
    assert_eq!(props.position(&Name::new("fig")), (2, true));
    assert_eq!(props.position(&Name::new("grape")), (3, false));
    assert_eq!(props.position(&Name::new("zzz")), (5, false));
    assert_eq!(props.values().len(), 5);
}

#[test]
fn props_set_get_remove_and_clear() {
    let mut props = Props::new();
    assert!(props.get_value(&Name::new("x")).is_none());
    assert!(props.get(&Name::new("x")).equals(&Value::Bool(false)));
    props.set(Name::new("x"), num_value(1.0));
    props.set(Name::new("y"), Value::Bool(true));
    assert!(props.get(&Name::new("x")).equals(&num_value(1.0)));
    props.set(Name::new("x"), num_value(2.0));
    assert!(props.get(&Name::new("x")).equals(&num_value(2.0)));
    assert!(props.get(&Name::new("y")).equals(&Value::Bool(true)));
    assert_eq!(props.len(), 2);
    props.remove(&Name::new("x"));
    assert!(props.get_value(&Name::new("x")).is_none());
    assert!(props.get_value(&Name::new("y")).is_some());
    props.remove(&Name::new("nothing"));
    assert_eq!(props.len(), 1);
    props.clear();
    assert_eq!(props.len(), 0);
    let props = Props::new().with(Name::new("a"), num_value(1.0));
    assert!(props.get(&Name::new("a")).equals(&num_value(1.0)));
}

#[test]
fn tables_hold_one_value_for_each_name() {
    let mut table: Table<u32> = Table::new();
    table.insert(Name::new("b"), 2);
    table.insert(Name::new("a"), 1);
    table.insert(Name::new("c"), 3);
    table.insert(Name::new("b"), 20);
    assert_eq!(table.len(), 3);
    assert_eq!(table.get(&Name::new("b")), Some(&20));
    assert_eq!(table.get(&Name::new("d")), None);
    assert!(table.contains(&Name::new("a")));
    assert!(!table.contains(&Name::new("aa")));
    assert_eq!(table.name_at(0).as_bytes(), b"a");
    assert_eq!(*table.value_at(2), 3);
    assert_eq!(table.remove(&Name::new("a")), Some(1));
    assert_eq!(table.remove(&Name::new("a")), None);
    let keys: Vec<Vec<u8>> = table.keys().iter().map(|k| k.as_bytes().to_vec()).collect();
    assert_eq!(keys, vec![b"b".to_vec(), b"c".to_vec()]);
    let reversed: Vec<u32> = table.into_reversed().into_iter().map(|e| e.1).collect();
    assert_eq!(reversed, vec![3, 20]);
}

#[test]
fn the_encoder_gives_each_string_a_code_of_its_own() {
    let mut encoder = Encoder::new();
    let a = encoder.encode_ustr(&Name::new("alpha"));
    let b = encoder.encode_ustr(&Name::new("beta"));
    let c = encoder.encode_ustr(&Name::new("Alpha"));
    assert_eq!(a, bits(f32::MIN));
    assert_eq!(b, bits(f32::MIN.next_up()));
    assert_eq!(c, bits(f32::MIN.next_up().next_up()));
    assert!(a != b && b != c && a != c);
    // Encoding again gives the same code and teaches the encoder nothing.
    assert_eq!(encoder.encode_ustr(&Name::new("alpha")), a);
    assert_eq!(encoder.encode_ustr(&Name::new("beta")), b);
    assert_eq!(encoder.len(), 3);
    assert_eq!(encoder.find(&Name::new("beta")), Some(b));
    assert_eq!(encoder.find(&Name::new("gamma")), None);
    // Booleans and numbers stand for themselves.
    assert_eq!(encoder.encode(&Value::Bool(false)), bits(0.0));
    assert_eq!(encoder.encode(&Value::Bool(true)), bits(1.0));
    assert_eq!(encoder.encode(&num_value(-7.5)), bits(-7.5));
    assert_eq!(encoder.encode(&Value::text("beta")), b);
    assert_eq!(encoder.len(), 3);
    assert_eq!(encoder.encode(&Value::text("gamma")), bits(f32::MIN.next_up().next_up().next_up()));
}

#[test]
fn a_scanner_moves_forwards_only() {
    let items = vec![
        (Name::new("a"), 1),
        (Name::new("c"), 3),
        (Name::new("e"), 5),
    ];
    let mut scanner = Scanner::new(items);
    assert_eq!(scanner.scan_to(&Name::new("a")), Some(1));
    assert_eq!(scanner.scan_to(&Name::new("a")), Some(1));
    assert_eq!(scanner.scan_to(&Name::new("b")), None);
    assert_eq!(scanner.scan_to(&Name::new("c")), Some(3));
    assert_eq!(scanner.scan_to(&Name::new("d")), None);
    // What lies behind the cursor is not found again.
    assert_eq!(scanner.scan_to(&Name::new("a")), None);
    assert_eq!(scanner.scan_to(&Name::new("e")), Some(5));
    assert_eq!(scanner.scan_to(&Name::new("f")), None);
    assert_eq!(scanner.scan_to(&Name::new("e")), None);
    scanner.reset();
    assert_eq!(scanner.scan_to(&Name::new("e")), Some(5));
}

#[test]
fn a_query_prefers_the_earlier_bag() {
    let first = Props::new().with(Name::new("x"), num_value(1.0));
    let second = Props::new()
        .with(Name::new("x"), num_value(2.0))
        .with(Name::new("y"), Value::text("word"));
    let mut encoder = Encoder::new();
    let mut query = Query::build(&vec![&first, &second], &mut encoder);
    assert_eq!(query.scan_to(&Name::new("x")), Some(bits(1.0)));
    assert_eq!(query.scan_to(&Name::new("y")), encoder.find(&Name::new("word")));
    assert_eq!(query.scan_to(&Name::new("z")), None);
    query.reset();
    assert_eq!(query.scan_to(&Name::new("w")), None);
    assert_eq!(query.scan_to(&Name::new("x")), Some(bits(1.0)));
}

#[test]
fn a_weighted_pick_follows_the_draw() {
    let weights = vec![bits(1.0), bits(0.0), bits(3.0)];
    assert_eq!(weighted_pick(&weights, 0), Some(0));
    assert_eq!(weighted_pick(&weights, u32::MAX / 8), Some(0));
    assert_eq!(weighted_pick(&weights, u32::MAX / 2), Some(2));
    assert_eq!(weighted_pick(&weights, u32::MAX), Some(2));
    // A place without weight is never picked.
    for draw in [0u32, 1 << 20, 1 << 30, (1 << 30) + 5, 3 << 30, u32::MAX] {
        assert_ne!(weighted_pick(&weights, draw), Some(1));
    }
    let counts = (0..4000u32).fold([0usize; 3], |mut counts, i| {
        counts[weighted_pick(&weights, i.wrapping_mul(1_073_807_359)).unwrap()] += 1;
        counts
    });
    assert!(counts[0] > 800 && counts[0] < 1200, "{:?}", counts);
    assert_eq!(counts[1], 0);
}

#[test]
fn weights_that_allow_no_pick_give_none() {
    assert_eq!(weighted_pick(&vec![], 5), None);
    assert_eq!(weighted_pick(&vec![bits(0.0), bits(0.0)], 5), None);
    assert_eq!(weighted_pick(&vec![bits(1.0), bits(-1.0)], 5), None);
    assert_eq!(weighted_pick(&vec![bits(1.0), bits(f32::NAN)], 5), None);
    assert_eq!(weighted_pick(&vec![bits(f32::MAX), bits(f32::MAX)], 5), None);
    assert_eq!(weighted_pick(&vec![bits(f32::INFINITY)], 5), None);
    assert_eq!(weighted_pick(&vec![bits(2.0)], 5), Some(0));
}

#[test]
fn dispatchers_step_as_their_policies_say() {
    let mut looping = ResponseDispatcher::Loop { len: 2, index: 0 };
    assert_eq!(looping.advance(9), Some(0));
    assert_eq!(looping.advance(9), Some(1));
    assert_eq!(looping.advance(9), Some(0));
    assert!(!looping.disable_rule());
    let mut nothing = ResponseDispatcher::Loop { len: 0, index: 0 };
    assert_eq!(nothing.advance(9), None);

    let mut list = ResponseDispatcher::List { len: 2, index: 0 };
    assert!(!list.disable_rule());
    assert_eq!(list.advance(9), Some(0));
    assert_eq!(list.advance(9), Some(1));
    assert!(list.disable_rule());
    assert_eq!(list.advance(9), None);

    let mut deplete = ResponseDispatcher::Deplete {
        weights: vec![bits(1.0), bits(1.0), bits(1.0)],
        candidates: vec![0, 1, 2],
    };
    assert_eq!(deplete.advance(0), Some(0));
    assert_eq!(deplete.advance(u32::MAX), Some(2));
    assert!(!deplete.disable_rule());
    assert_eq!(deplete.advance(12345), Some(1));
    assert!(deplete.disable_rule());
    assert_eq!(deplete.advance(12345), None);

    let mut shuffle = ResponseDispatcher::Shuffle {
        weights: vec![bits(1.0), bits(1.0), bits(1.0)],
        candidates: vec![0, 1, 2],
    };
    assert_eq!(shuffle.advance(u32::MAX), Some(2));
    assert_eq!(shuffle.advance(0), Some(0));
    assert_eq!(shuffle.advance(77), Some(1));
    // All but the one just given are back.
    match &shuffle {
        ResponseDispatcher::Shuffle { candidates, .. } => assert_eq!(candidates, &vec![0, 2]),
        other => panic!("unexpected dispatcher {:?}", other),
    }
    assert!(!shuffle.disable_rule());

    let mut single = ResponseDispatcher::Shuffle { weights: vec![bits(0.0)], candidates: vec![0] };
    assert_eq!(single.advance(3), Some(0));
    assert_eq!(single.advance(3), Some(0));
    let mut single = ResponseDispatcher::Random { weights: vec![bits(-1.0)] };
    assert_eq!(single.advance(3), Some(0));

    let mut random = ResponseDispatcher::Random { weights: vec![bits(1.0), bits(1.0)] };
    assert_eq!(random.advance(0), Some(0));
    assert_eq!(random.advance(0), Some(0));
    assert_eq!(random.advance(u32::MAX), Some(1));
    assert!(!random.disable_rule());
    let mut empty = ResponseDispatcher::Random { weights: vec![] };
    assert_eq!(empty.advance(0), None);
    let mut rng = rand::rng();
    for _ in 0..20 {
        assert!(random.next(&mut rng).unwrap() < 2);
    }
}

#[test]
fn partition_keys_tell_assignments_apart() {
    let none: Vec<(Name, u32)> = vec![];
    let talk = vec![(Name::new("concept"), bits(1.0))];
    let shout = vec![(Name::new("concept"), bits(2.0))];
    let other = vec![(Name::new("concepu"), bits(1.0))];
    let both = vec![(Name::new("concept"), bits(1.0)), (Name::new("who"), bits(1.0))];
    let keys = [
        partition_key(&none),
        partition_key(&talk),
        partition_key(&shout),
        partition_key(&other),
        partition_key(&both),
    ];
    for i in 0..keys.len() {
        for j in 0..i {
            assert_ne!(keys[i], keys[j], "{} and {}", i, j);
        }
    }
    assert_eq!(partition_key(&talk), partition_key(&vec![(Name::new("concept"), bits(1.0))]));
}

fn tokens(source: &str) -> Vec<Result<Token, LexicalError>> {
    let mut out = Vec::new();
    let mut pos = 0;
    loop {
        let lexed = next_lexeme(source.as_bytes(), pos);
        pos = lexed.end;
        match lexed.item {
            None => return out,
            Some(item) => out.push(item),
        }
    }
}

fn shown(source: &str) -> String {
    format!("{:?}", tokens(source))
}

#[test]
fn the_lexer_reads_the_tokens_of_the_language() {
    assert_eq!(
        shown("( ) := :! :+ :- == .. ..= $"),
        "[Ok(ParenOpen), Ok(ParenClose), Ok(ColonEqual), Ok(ColonNegated), Ok(ColonPlus), \
         Ok(ColonMinus), Ok(DoubleEqual), Ok(Range(false)), Ok(Range(true)), Ok(DollarSign)]"
    );
    assert_eq!(shown(" \t\n\x0c"), "[]");
    assert_eq!(shown(""), "[]");
    match &tokens("talk_stare$1 X")[..] {
        [Ok(Token::Symbol(a)), Ok(Token::Symbol(b))] => {
            assert_eq!(a.as_bytes(), b"talk_stare$1");
            assert_eq!(b.as_bytes(), b"X");
        }
        other => panic!("unexpected tokens {:?}", other),
    }
}

fn numbers(source: &str) -> Vec<f32> {
    tokens(source)
        .into_iter()
        .filter_map(|t| match t {
            Ok(Token::Number(n)) => Some(f32::from_bits(n)),
            _ => None,
        })
        .collect()
}

#[test]
fn the_lexer_reads_numbers() {
    assert_eq!(numbers("0 5 -5 12.5 -0.25 1e3 1E-2 2.5e+1 0.1"), vec![
        0.0, 5.0, -5.0, 12.5, -0.25, 1000.0, 0.01, 25.0, 0.1
    ]);
    assert_eq!(bits(numbers("-0")[0]), bits(-0.0));
    assert_eq!(numbers("16777217 3.4028235e38 1e39 1e-50"), vec![
        16777216.0,
        f32::MAX,
        f32::INFINITY,
        0.0
    ]);
    for text in [
        "3.4028236e38",
        "3.4028235677973366e38",
        "1.17549435e-38",
        "1e-45",
        "7e-46",
        "0.30000001192092896",
        "123456789012345678901234567890",
        "-2.5e-3",
        "8388608.5",
        "8388609.5",
    ] {
        assert_eq!(numbers(text), vec![text.parse::<f32>().unwrap()], "{:?}", text);
    }
    // A range after a number is no fraction.
    assert_eq!(shown("0..10"), format!("[Ok(Number({})), Ok(Range(false)), Ok(Number({}))]", bits(0.0), bits(10.0)));
    assert_eq!(shown("1..=2"), format!("[Ok(Number({})), Ok(Range(true)), Ok(Number({}))]", bits(1.0), bits(2.0)));
    // A zero is a number by itself, and so is what follows it.
    assert_eq!(numbers("007"), vec![0.0, 0.0, 7.0]);
    // An exponent needs a digit.
    match &tokens("2e")[..] {
        [Ok(Token::Number(n)), Ok(Token::Symbol(e))] => {
            assert_eq!(*n, bits(2.0));
            assert_eq!(e.as_bytes(), b"e");
        }
        other => panic!("unexpected tokens {:?}", other),
    }
    assert_eq!(shown(":-5"), format!("[Ok(ColonMinus), Ok(Number({}))]", bits(5.0)));
}

#[test]
fn the_lexer_reads_strings() {
    let texts = |source: &str| -> Vec<Vec<u8>> {
        tokens(source)
            .into_iter()
            .map(|t| match t {
                Ok(Token::String(s)) => s,
                other => panic!("unexpected token {:?}", other),
            })
            .collect()
    };
    assert_eq!(texts(r#""hi" "" "Oh hi! I'm Miles""#), vec![
        b"hi".to_vec(),
        b"".to_vec(),
        b"Oh hi! I'm Miles".to_vec()
    ]);
    // A quote after a backslash stays in the text where a later quote ends it.
    assert_eq!(texts(r#""say \"hi\" now""#), vec![br#"say \"hi\" now"#.to_vec()]);
    // Where no later quote does, it ends the text.
    assert_eq!(texts(r#""ends with \""#), vec![br"ends with \".to_vec()]);
    assert_eq!(texts("\"caf\u{e9}\n\""), vec!["caf\u{e9}\n".as_bytes().to_vec()]);
}

#[test]
fn the_lexer_reports_what_starts_no_token() {
    for source in ["#", "-", "- 5", ":", "=", ".", "\"open", "\r", ": =", "é"] {
        let first = next_lexeme(source.as_bytes(), 0);
        assert!(
            matches!(first.item, Some(Err(LexicalError::LexicalError))),
            "{:?} gives {:?}",
            source,
            first
        );
        assert_eq!((first.start, first.end), (0, 1));
    }
    let lexed = next_lexeme(b"  abc  ", 0);
    assert_eq!((lexed.start, lexed.end), (2, 5));
    let lexed = next_lexeme(b"  abc  ", 5);
    assert!(lexed.item.is_none());
    assert_eq!((lexed.start, lexed.end), (7, 7));
    assert_eq!(LexicalError::default(), LexicalError::LexicalError);
}

fn parse_all(source: &str) -> Vec<Definition> {
    let mut parser = Parser::new(source);
    let mut out = Vec::new();
    while let Some((definition, _span)) = parser.maybe_parse_definition().unwrap() {
        out.push(definition);
    }
    out
}

#[test]
fn the_parser_reads_criteria() {
    let definitions = parse_all(
        "(criterion A (x == true)) (criterion B (y == 2.5) weight 3) (criterion C (z == word)) \
         (criterion D (d in 1..5)) (criterion E (e in 1..=5)) (criterion F (f in ..5)) \
         (criterion G (g in 1..)) (criterion H (h in ..)) (criterion I (i in ..=5)) \
         (criterion J (j == false))",
    );
    let expected: Vec<(&str, &str, String, f32)> = vec![
        ("A", "x", "BoolEqual(true)".to_string(), 1.0),
        ("B", "y", format!("NumEqual({})", bits(2.5)), 3.0),
        ("C", "z", format!("StrEqual({:?})", Name::new("word")), 1.0),
        ("D", "d", format!("NumRange(Some({}), Some({}))", bits(1.0), bits(5.0f32.next_down())), 1.0),
        ("E", "e", format!("NumRange(Some({}), Some({}))", bits(1.0), bits(5.0)), 1.0),
        ("F", "f", format!("NumRange(None, Some({}))", bits(5.0f32.next_down())), 1.0),
        ("G", "g", format!("NumRange(Some({}), None)", bits(1.0)), 1.0),
        ("H", "h", "NumRange(None, None)".to_string(), 1.0),
        ("I", "i", format!("NumRange(None, Some({}))", bits(5.0)), 1.0),
        ("J", "j", "BoolEqual(false)".to_string(), 1.0),
    ];
    assert_eq!(definitions.len(), expected.len());
    for (definition, (name, variable, predicate, weight)) in definitions.iter().zip(expected) {
        match definition {
            Definition::Criterion { name: n, criterion } => {
                assert_eq!(n.as_bytes(), name.as_bytes());
                assert_eq!(criterion.variable.as_bytes(), variable.as_bytes());
                assert_eq!(format!("{:?}", criterion.predicate), predicate);
                assert_eq!(criterion.weight, bits(weight));
            }
            other => panic!("unexpected definition {:?}", other),
        }
    }
}

#[test]
fn the_parser_reads_rules() {
    let definitions = parse_all("(rule R (A B) (G) x :! $y := true z := 4 w := word v :+ 2 u :- 2)");
    match &definitions[..] {
        [Definition::Rule { name, rule }] => {
            assert_eq!(name.as_bytes(), b"R");
            let criteria: Vec<&[u8]> = rule.criteria.iter().map(|n| n.as_bytes()).collect();
            assert_eq!(criteria, vec![b"A", b"B"]);
            let groups: Vec<&[u8]> = rule.response_groups.iter().map(|n| n.as_bytes()).collect();
            assert_eq!(groups, vec![b"G"]);
            let shown: Vec<String> = rule
                .instructions
                .iter()
                .map(|i| {
                    format!(
                        "{} {} {:?}",
                        String::from_utf8_lossy(i.variable.as_bytes()),
                        i.global,
                        i.operation
                    )
                })
                .collect();
            assert_eq!(shown, vec![
                "x false BoolToggle".to_string(),
                "y true BoolSet(true)".to_string(),
                format!("z false NumSet({})", bits(4.0)),
                format!("w false StrSet({:?})", Name::new("word")),
                format!("v false NumAdd({})", bits(2.0)),
                format!("u false NumAdd({})", bits(-2.0)),
            ]);
        }
        other => panic!("unexpected definitions {:?}", other),
    }
}

#[test]
fn the_parser_reads_response_groups() {
    let definitions = parse_all(
        r#"(response A (line "a" tone "low" line "b")) (response B deplete (line "x") (line "y"))
           (response C random (l "1")) (response D loop (l "1")) (response E list (l "1"))
           (response F shuffle (l "1") ())"#,
    );
    let deliveries: Vec<Delivery> = definitions
        .iter()
        .map(|d| match d {
            Definition::ResponseGroup { response_group, .. } => response_group.delivery,
            other => panic!("unexpected definition {:?}", other),
        })
        .collect();
    assert_eq!(deliveries, vec![
        Delivery::Shuffle,
        Delivery::Deplete,
        Delivery::Random,
        Delivery::Loop,
        Delivery::List,
        Delivery::Shuffle
    ]);
    match &definitions[0] {
        Definition::ResponseGroup { response_group, .. } => {
            assert_eq!(response_group.responses.len(), 1);
            let response = &response_group.responses[0];
            // A later text under the same name takes the place of the earlier.
            assert_eq!(response.get(&Name::new("line")).unwrap().as_slice(), b"b");
            assert_eq!(response.get(&Name::new("tone")).unwrap().as_slice(), b"low");
            assert_eq!(response.len(), 2);
        }
        other => panic!("unexpected definition {:?}", other),
    }
    match &definitions[5] {
        Definition::ResponseGroup { response_group, .. } => {
            assert_eq!(response_group.responses.len(), 2);
            assert_eq!(response_group.responses[1].len(), 0);
        }
        other => panic!("unexpected definition {:?}", other),
    }
}

fn flaw_of(source: &str) -> (String, usize, usize) {
    let mut parser = Parser::new(source);
    loop {
        match parser.maybe_parse_definition() {
            Ok(Some(_)) => {}
            Ok(None) => panic!("no flaw in {:?}", source),
            Err(e) => {
                let text = match e.error {
                    ParseError::UnexpectedEof => "end".to_string(),
                    ParseError::LexError { error } => format!("{:?}", error),
                    ParseError::UnexpectedToken { token, expected, hint } => {
                        format!("{:?}|{}|{:?}", token, expected, hint)
                    }
                };
                return (text, e.span.start, e.span.end);
            }
        }
    }
}

#[test]
fn the_parser_says_what_it_expected_and_where() {
    assert_eq!(
        flaw_of("x"),
        (
            format!("Symbol({:?})|either an open parenthesis or the end of the file|None", Name::new("x")),
            0,
            1
        )
    );
    assert_eq!(
        flaw_of("(thing Name)"),
        (
            format!(
                "Symbol({:?})|a symbol containing one of the keywords 'criterion', 'rule', or 'response'|None",
                Name::new("thing")
            ),
            7,
            11
        )
    );
    assert_eq!(flaw_of("(5 Name)"), (format!("Number({})|a symbol|None", bits(5.0)), 1, 2));
    assert_eq!(
        flaw_of("(criterion C (X == 1))"),
        (
            format!(
                "Symbol({:?})|a variable name|Some(\"variable names must begin with a lower-case ascii letter\")",
                Name::new("X")
            ),
            14,
            15
        )
    );
    assert_eq!(
        flaw_of("(criterion C x == 1)"),
        (format!("Symbol({:?})|an open parenthesis|None", Name::new("x")), 13, 14)
    );
    assert_eq!(
        flaw_of("(criterion C (x 1))"),
        (
            format!(
                "Number({})|either a symbol containing the keyword 'in' or the specifier '=='|None",
                bits(1.0)
            ),
            16,
            17
        )
    );
    assert_eq!(
        flaw_of("(criterion C (x == \"s\"))"),
        (
            "String([115])|eeither a boolean literal, a numeric literal, or a symbol|None".to_string(),
            19,
            22
        )
    );
    assert_eq!(
        flaw_of("(criterion C (x == 1 2))"),
        (format!("Number({})|a closing parenthesis|None", bits(2.0)), 21, 22)
    );
    assert_eq!(
        flaw_of("(criterion C (x in 1 2))"),
        (format!("Number({})|either of the specifiers '..' or '..='|None", bits(2.0)), 21, 22)
    );
    assert_eq!(
        flaw_of("(criterion C (x in 1..x))"),
        (
            format!("Symbol({:?})|either a numeric literal or a closing parenthesis|None", Name::new("x")),
            22,
            23
        )
    );
    assert_eq!(
        flaw_of("(criterion C (x in ..=x))"),
        (format!("Symbol({:?})|a number literal|None", Name::new("x")), 22, 23)
    );
    assert_eq!(
        flaw_of("(criterion C (x in x))"),
        (
            format!(
                "Symbol({:?})|either a numeric literal or either of the specifiers '..' or '..='|None",
                Name::new("x")
            ),
            19,
            20
        )
    );
    assert_eq!(
        flaw_of("(criterion C (x == 1) weight 2 weight 3)"),
        (
            format!(
                "Symbol({:?})|either a closing parenthesis, or a symbol containing the either of the keywords 'optional' or 'weight'|None",
                Name::new("weight")
            ),
            31,
            37
        )
    );
    assert_eq!(
        flaw_of("(rule R (a) ())"),
        (
            format!(
                "Symbol({:?})|an identifier|Some(\"identifiers must begin with an upper-case ascii letter\")",
                Name::new("a")
            ),
            9,
            10
        )
    );
    assert_eq!(
        flaw_of("(rule R () () 5)"),
        (
            format!(
                "Number({})|either a variable name, the '$' variable modifier, or a closing parenthesis|None",
                bits(5.0)
            ),
            14,
            15
        )
    );
    assert_eq!(
        flaw_of("(rule R () () x 5)"),
        (format!("Number({})|one of the operators ':!', ':=', ':+' or ':-'|None", bits(5.0)), 16, 17)
    );
    assert_eq!(
        flaw_of("(rule R () () x := ())"),
        ("ParenOpen|either a boolean literal, a numeric literal, or a symbol|None".to_string(), 19, 20)
    );
    assert_eq!(
        flaw_of("(response G slow (l \"1\"))"),
        (
            format!(
                "Symbol({:?})|a symbol containing one of the keywords 'shuffle', 'random', 'deplete', 'loop', or 'list'|None",
                Name::new("slow")
            ),
            17,
            18
        )
    );
    assert_eq!(
        flaw_of("(response G)"),
        ("ParenClose|either open parenthesis or a closing parenthesis|None".to_string(), 11, 12)
    );
    assert_eq!(
        flaw_of("(response G (l 1))"),
        (
            format!(
                "Number({})|a string literal|Some(\"string literals must be enclosed in quotes\")",
                bits(1.0)
            ),
            15,
            16
        )
    );
    assert_eq!(
        flaw_of("(response G (\"l\"))"),
        ("String([108])|either a symbol or a closing parenthesis|None".to_string(), 13, 16)
    );
    assert_eq!(flaw_of("(rule R () ("), ("end".to_string(), 12, 12));
    assert_eq!(flaw_of("(rule R () () x := #)"), ("LexicalError".to_string(), 19, 20));
}

#[test]
fn parsing_twice_gives_the_same_definitions() {
    let source = r#"
        (criterion ConceptTalk (concept == talk) weight 5)
        (rule R1 (ConceptTalk) (G1) seen :! $count :+ 1)
        (response G1 shuffle (line "hi" weight "2") (line "ho"))
    "#;
    assert_eq!(format!("{:?}", parse_all(source)), format!("{:?}", parse_all(source)));
    assert_eq!(parse_all(source).len(), 3);
}

#[test]
fn weights_are_read_as_numbers_are_written() {
    let weight = |text: &str| parse_weight(text.as_bytes()).map(f32::from_bits);
    for text in ["5", "+5", "-5", "5.", ".5", "0.25", "1e3", "1E-3", "2.5e+2", "007", "1e400", "-1e400"] {
        assert_eq!(weight(text), Some(text.parse::<f32>().unwrap()), "{:?}", text);
    }
    for text in ["inf", "Infinity", "-INF", "+infinity"] {
        assert_eq!(weight(text), Some(text.parse::<f32>().unwrap()), "{:?}", text);
    }
    assert!(weight("nan").unwrap().is_nan());
    assert!(weight("-NaN").unwrap().is_nan());
    for text in ["", "heavy", " 5", "5 ", "1e", "e5", ".", "+", "--5", "0x10", "5f", "infinit", "1.2.3", "1e+", "nan(5)"] {
        assert_eq!(weight(text), None, "{:?}", text);
        assert!(text.parse::<f32>().is_err(), "{:?}", text);
    }
}

#[test]
fn kinds_are_described_and_found() {
    assert_eq!(Type::Bool.describe(), "boolean");
    assert_eq!(Type::Num.describe(), "number");
    assert_eq!(Type::Str.describe(), "string");
    assert_eq!(Predicate::BoolEqual(true).kind(), Type::Bool);
    assert_eq!(Predicate::NumEqual(0).kind(), Type::Num);
    assert_eq!(Predicate::NumRange(None, None).kind(), Type::Num);
    assert_eq!(Predicate::StrEqual(Name::new("s")).kind(), Type::Str);
    assert_eq!(Operation::BoolToggle.kind(), Type::Bool);
    assert_eq!(Operation::BoolSet(true).kind(), Type::Bool);
    assert_eq!(Operation::NumSet(0).kind(), Type::Num);
    assert_eq!(Operation::NumAdd(0).kind(), Type::Num);
    assert_eq!(Operation::StrSet(Name::new("s")).kind(), Type::Str);
    assert_eq!(format!("{:?}", Operation::StrSet(Name::new("s")).duplicate()), format!("{:?}", Operation::StrSet(Name::new("s"))));
}

#[test]
fn values_and_names_compare_with_the_equals_sign() {
    assert!(Value::from(true) == Value::Bool(true));
    assert!(Value::from(Name::new("a")) == Value::text("a"));
    assert!(num_value(0.0) == num_value(-0.0));
    assert!(num_value(f32::NAN) != num_value(f32::NAN));
    assert!(Value::Bool(false) != num_value(0.0));
    assert!(Name::new("a") == Name::new("a"));
    assert!(Name::new("a") != Name::new("b"));
}

#[test]
fn props_hand_out_their_keys_and_values() {
    let props = || {
        Props::new()
            .with(Name::new("b"), num_value(2.0))
            .with(Name::new("a"), num_value(1.0))
            .with(Name::new("c"), num_value(3.0))
    };
    let keys: Vec<Vec<u8>> = props().into_keys().iter().map(|k| k.as_bytes().to_vec()).collect();
    assert_eq!(keys, vec![b"a".to_vec(), b"b".to_vec(), b"c".to_vec()]);
    let values: Vec<f32> = props().into_values().into_iter().map(as_f32).collect();
    assert_eq!(values, vec![1.0, 2.0, 3.0]);
}

#[test]
fn a_value_can_be_changed_in_place() {
    let mut props = Props::new().with(Name::new("b"), num_value(2.0));
    *props.get_mut(Name::new("b")) = num_value(5.0);
    assert!(props.get(&Name::new("b")) == num_value(5.0));
    // A name without a value gets the default value first.
    assert!(*props.get_mut(Name::new("a")) == Value::Bool(false));
    *props.get_mut(Name::new("c")) = Value::text("x");
    assert_eq!(props.len(), 3);
    assert_eq!(props.name_at(0).as_bytes(), b"a");
    assert!(props.get(&Name::new("c")) == Value::text("x"));
}

#[test]
fn an_error_gets_its_span() {
    let span = Span { start: 3, end: 7 };
    let spanned = ParseError::UnexpectedEof.span(span);
    assert_eq!(spanned.span, span);
    assert!(matches!(spanned.error, ParseError::UnexpectedEof));
    let fine: Result<u32, ParseError> = Ok(5);
    assert_eq!(fine.span(span).unwrap(), 5);
    let wrong: Result<u32, ParseError> = Err(ParseError::UnexpectedEof);
    assert_eq!(wrong.span(span).unwrap_err().span, span);
}

#[test]
fn a_value_is_taken_for_what_is_asked_of_it() {
    let mut value = Value::text("hello");
    assert!(!*value.as_bool_mut());
    assert!(value == Value::Bool(false));
    let mut value = Value::text("hello");
    *value.as_num_mut() = bits(10.0);
    assert!(value == num_value(10.0));
    let mut value = Value::Bool(true);
    *value.as_bool_mut() = false;
    assert!(value == Value::Bool(false));
    let mut value = num_value(2.0);
    assert_eq!(*value.as_num_mut(), bits(2.0));
}

#[test]
fn defaults_are_empty() {
    assert_eq!(Encoder::default().len(), 0);
    let spanned: Spanned<LexicalError> = Spanned::default();
    assert_eq!(spanned.error, LexicalError::LexicalError);
    assert_eq!(spanned.span, Span { start: 0, end: 0 });
}
