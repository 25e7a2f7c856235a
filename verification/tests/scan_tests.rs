use music_turtles::cfg::scan::{
    consume, ConsumeScanner, DurationScanner, GrammarScanner, InstrumentScanner,
    MetaControlScanner, MusicPrimitiveRepeatScanner, MusicPrimitiveScanner, MusicStringScanner,
    NonTerminalScanner, NoteScanner, ProductionScanner, Scanner, SymbolScanner, VolumeScanner,
};

#[test]
fn test_1() {
    let input = "start S\nS = [3][:4c<1> :4d :_ :f# :g :c ::i=sine B]\nB = :0c";
    let scanner = consume(GrammarScanner);
    let result = scanner.scan(input.as_bytes());
    println!("result: {result:#?}");
    assert!(result.is_ok());
}

#[test]
fn test_instrument() {
    let input = "sine";
    let scanner = ConsumeScanner(InstrumentScanner);
    let result = scanner.scan(input.as_bytes());
    println!("result: {result:#?}");
    assert!(result.is_ok());
}

#[test]
fn test_duration() {
    let input = "<1/4>";
    let scanner = ConsumeScanner(DurationScanner);
    let result = scanner.scan(input.as_bytes());
    println!("result: {result:#?}");
    assert!(result.is_ok());
}

#[test]
fn test_volume() {
    let input = "20";
    let scanner = ConsumeScanner(VolumeScanner);
    let result = scanner.scan(input.as_bytes());
    println!("result: {result:#?}");
    assert!(result.is_ok());
}

#[test]
fn test_note() {
    let input = "4c#";
    let scanner = ConsumeScanner(NoteScanner);
    let result = scanner.scan(input.as_bytes());
    println!("result: {result:#?}");
    assert!(result.is_ok());
}

#[test]
fn test_rest() {
    let input = "_";
    let scanner = ConsumeScanner(NoteScanner);
    let result = scanner.scan(input.as_bytes());
    println!("result: {result:#?}");
    assert!(result.is_ok());
}

#[test]
fn test_meta_control() {
    let input = "i=sine";
    let scanner = ConsumeScanner(MetaControlScanner);
    let result = scanner.scan(input.as_bytes());
    println!("result: {result:#?}");
    assert!(result.is_ok());
}

#[test]
fn test_meta_control_terminal() {
    let input = ":i=sine";
    let scanner = ConsumeScanner(music_turtles::cfg::scan::TerminalScanner);
    let result = scanner.scan(input.as_bytes());
    println!("result: {result:#?}");
    assert!(result.is_ok());
}

#[test]
fn test_terminal() {
    let input = "4c<1>";
    let scanner = ConsumeScanner(music_turtles::cfg::scan::TerminalScanner);
    let result = scanner.scan(input.as_bytes());
    println!("result: {result:#?}");
    assert!(result.is_ok());
}

#[test]
fn test_nonterminal() {
    let input = "S-b";
    let scanner = ConsumeScanner(NonTerminalScanner);
    let result = scanner.scan(input.as_bytes());
    println!("result: {result:#?}");
    assert!(result.is_ok());
}

#[test]
fn symbol_scanner_1() {
    let input = ":bb";
    let scanner = ConsumeScanner(SymbolScanner);
    let result = scanner.scan(input.as_bytes());
    println!("result: {result:#?}");
    assert!(result.is_ok());
}

#[test]
fn symbol_scanner_2() {
    let input = "::i=sine";
    let scanner = ConsumeScanner(SymbolScanner);
    let result = scanner.scan(input.as_bytes());
    println!("result: {result:#?}");
    assert!(result.is_ok());
}

#[test]
fn symbol_scanner_3() {
    let input = "T";
    let scanner = ConsumeScanner(SymbolScanner);
    let result = scanner.scan(input.as_bytes());
    println!("result: {result:#?}");
    assert!(result.is_ok());
}

#[test]
fn music_string_scanner_0() {
    let input = ":4c<1> :4d :_ :f# :g :c ::i=sine Ba-c";
    let scanner = ConsumeScanner(MusicStringScanner);
    let result = scanner.scan(input.as_bytes());
    println!("result: {result:#?}");
    assert!(result.is_ok());
}

#[test]
fn music_string_scanner_1() {
    let input = ":4c<1> :4d :_ :f# :g :c ::i=sine B";
    let scanner = ConsumeScanner(MusicStringScanner);
    let result = scanner.scan(input.as_bytes());
    println!("result: {result:#?}");
    assert!(result.is_ok());
}

#[test]
fn music_primitive_repeat_scanner() {
    let input = "[3][:4c<1> :4d :_ :f# :g :c ::i=sine B]";
    let scanner = ConsumeScanner(MusicPrimitiveRepeatScanner);
    let result = scanner.scan(input.as_bytes());
    println!("result: {result:#?}");
    assert!(result.is_ok());
}

#[test]
fn music_primitive_split_scanner() {
    let input = "{:4c<1> :4d :_ :f# :g :c ::i=sine B | :4c<1> :4d :_ :f# :g :c ::i=sine B }";
    let scanner = ConsumeScanner(MusicPrimitiveScanner);
    let result = scanner.scan(input.as_bytes());
    println!("result: {result:#?}");
    assert!(result.is_ok());
}

#[test]
fn music_string_scanner_2() {
    let input = "{:4c<1> :4d :_ :f# :g :c ::i=sine B | [3][:4c<1> :4d :_ :f# :g :c ::i=sine B]}";
    let scanner = ConsumeScanner(MusicStringScanner);
    let result = scanner.scan(input.as_bytes());
    println!("result: {result:#?}");
    assert!(result.is_ok());
}

#[test]
fn production_scanner_1() {
    let input = "S = [3][:4c<1> :4d :_ :f# :g :c ::i=sine B]";
    let scanner = ConsumeScanner(ProductionScanner);
    let result = scanner.scan(input.as_bytes());
    println!("result: {result:#?}");
    assert!(result.is_ok());
}
