use logic_circuit::parse::{parse_hex_words, parse_source};
use logic_circuit::simulator::{run_test, TestStatus};

fn parse(text: &str) -> Result<logic_circuit::cct_mesh::Root, String> {
    parse_source(text.chars().collect(), "src.cct")
}

const ADDERS: &str = "
#defunit HalfAdder
#input $a, $b
#output $s, $c
$s = XOR{1,2} $a, $b
$c = AND{1,2} $a, $b
#endunit

#defunit FullAdder
#input $a, $b, $ci
#output $s, $co
$s1, $c1 = HalfAdder $a, $b
$s, $c2 = HalfAdder $s1, $ci
$co = OR{1,2} $c1, $c2
#endunit
";

#[test]
fn parses_and_passes_a_test() {
    let text = format!(
        "{}\n#testcase 10 \"fa\"\n$s, $co = FullAdder 1, 0, 0\n$chk = DELAY{{2}} 1\n$done = DELAY{{2}} 1\n#testcomplete $done\n#testassert $chk $s, $co 1, 0\n#endtestcase\n",
        ADDERS
    );
    let mut root = parse(&text).unwrap();
    assert_eq!(root.units.len(), 2);
    assert!(root.flatten_root().is_ok());
    root.flatten_tests().unwrap();
    let tests = root.iter_tests();
    assert_eq!(tests.len(), 1);
    assert!(matches!(run_test(&tests[0].test), TestStatus::Pass(2)));
}

#[test]
fn parses_a_failing_assertion() {
    let text = format!(
        "{}\n#testcase 10 \"fa\"\n$s, $co = FullAdder 1, 0, 0\n$chk = DELAY{{2}} 1\n$done = DELAY{{3}} 1\n#testcomplete $done\n#testassert $chk $s, $co 0, 0\n#endtestcase\n",
        ADDERS
    );
    let mut root = parse(&text).unwrap();
    root.flatten_tests().unwrap();
    match run_test(&root.iter_tests()[0].test) {
        TestStatus::Fail { cycles, index, line, .. } => assert_eq!((cycles, index, line), (2, 0, 22)),
        _ => panic!("expected a failure"),
    }
}

#[test]
fn parses_groups_binds_and_items() {
    let text = "
#defunit Bus
#input @d[4]
#output $o
#array tmp 2
@tmp = @d[0:1]
$o = AND{1,2} @tmp[1], (NOT @d[3])
#rom_data_hex 0 \"0a ff\" \"10\"
#display $o \"v=%i\" @d[3:0]
#breakpoint $o \"hit\"
#block \"b\"
#endblock
#endunit
$x = Bus 0xa[3:0]
";
    let mut root = parse(text).unwrap();
    let bus = root.get_unit("Bus").unwrap();
    assert_eq!(bus.inputs.len(), 4);
    assert_eq!(bus.outputs.len(), 1);
    assert_eq!(bus.get_rom(0), vec![0x0a, 0xff, 0x10]);
    assert_eq!(bus.disp_items.len(), 1);
    assert_eq!(bus.breakpoints.len(), 1);
    assert_eq!(bus.elements.len(), 2);
    assert_eq!(root.rootunit.subunits.len(), 1);
    assert!(root.flatten_root().is_ok());
}

#[test]
fn arithmetic_in_parameters() {
    let root = parse("$q = AND{(1+1)*2-3, 6/3} $a, $b\n").unwrap();
    assert_eq!(root.rootunit.elements.len(), 1);
    assert_eq!(root.rootunit.elements[0].outputs.len(), 1);
}

#[test]
fn parse_errors() {
    match parse("#defunit X\n#endunit\n#defunit X\n") {
        Err(e) => assert!(e.contains("Redefinition") && e.starts_with("src.cct:"), "{}", e),
        Ok(_) => panic!("expected an error"),
    }
    assert!(parse("$a = FROB $b\n").is_err());
    assert!(parse("#frob\n").is_err());
    assert!(parse("$a, $b = $c\n").is_err());
    assert!(parse("#testassert $a $b $c\n").is_err());
    assert!(parse("$a = AND{1,2} @nogroup\n").is_err());
    assert!(parse("$a = NOT{1/0} $b\n").is_err());
    assert!(parse("#defunit X\n#input $a\n#input $b\n").is_err());
}

#[test]
fn hex_words() {
    assert_eq!(parse_hex_words(&"0a  FF 1".to_string()).unwrap(), vec![0x0a, 0xff, 0x1]);
    assert_eq!(parse_hex_words(&"".to_string()).unwrap(), Vec::<u64>::new());
    assert_eq!(parse_hex_words(&"ffffffffffffffff".to_string()).unwrap(), vec![u64::MAX]);
    assert!(parse_hex_words(&"1ffffffffffffffff".to_string()).is_err());
    assert!(parse_hex_words(&"0g".to_string()).is_err());
}

#[test]
fn empty_source_is_an_empty_circuit() {
    let root = parse("").unwrap();
    assert!(root.units.is_empty() && root.tests.is_empty());
}
