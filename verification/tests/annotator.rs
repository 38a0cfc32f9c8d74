use runx::ai::annotator::{
    extract_fn_name, extract_function_body, extract_go_fn_name, extract_go_tests,
    extract_js_block, extract_js_test_name, extract_js_tests, extract_python_block,
    extract_python_fn_name, extract_python_tests, extract_rust_tests, extract_tests, language_of,
    SourceLanguage,
};

#[test]
fn test_extract_rust_tests() {
    let code = r#"
#[test]
fn test_addition() {
    assert_eq!(2 + 2, 4);
}

#[tokio::test]
async fn test_async_thing() {
    let result = async_fn().await;
    assert!(result.is_ok());
}
"#;

    let tests = extract_rust_tests(code);
    assert_eq!(tests.len(), 2);
    assert_eq!(tests[0].0, "test_addition");
    assert_eq!(tests[1].0, "test_async_thing");
}

#[test]
fn test_extract_js_tests() {
    let code = r#"
describe('Calculator', () => {
    it('should add two numbers', () => {
        expect(add(1, 2)).toBe(3);
    });

    test("should subtract numbers", () => {
        expect(subtract(5, 3)).toBe(2);
    });
});
"#;

    let tests = extract_js_tests(code);
    assert_eq!(tests.len(), 2);
    assert_eq!(tests[0].0, "should add two numbers");
    assert_eq!(tests[1].0, "should subtract numbers");
}

#[test]
fn test_extract_python_tests() {
    let code = r#"
def test_addition():
    assert 2 + 2 == 4

async def test_async_function():
    result = await async_fn()
    assert result is not None
"#;

    let tests = extract_python_tests(code);
    assert_eq!(tests.len(), 2);
    assert_eq!(tests[0].0, "test_addition");
    assert_eq!(tests[1].0, "test_async_function");
}

#[test]
fn rust_tests_come_with_their_bodies() {
    let code = "#[test]\r\n  pub fn one() {\r\n    if x { y() }\r\n  }\nfn helper() {}\n#[test]\n// note\nfn two()\n{\n}\n#[test]\n";
    let tests = extract_rust_tests(code);
    assert_eq!(tests.len(), 2);
    assert_eq!(tests[0].0, "one");
    assert_eq!(tests[0].1, "  pub fn one() {\n    if x { y() }\n  }");
    assert_eq!(tests[1].0, "two");
    assert_eq!(tests[1].1, "fn two()\n{\n}");
    assert!(extract_rust_tests("").is_empty());
    assert!(extract_rust_tests("fn main() {}\n").is_empty());
    // An attribute with no function after it gives no test.
    assert!(extract_rust_tests(" #[test] \nlet x = 1;").is_empty());
}

#[test]
fn javascript_tests_come_with_their_blocks() {
    let code = "it('a', () => {\n  x();\n});\nit(name, f);\ntest(\"b\", g)\nlast";
    let tests = extract_js_tests(code);
    assert_eq!(tests.len(), 2);
    assert_eq!(tests[0], ("a".to_string(), "it('a', () => {\n  x();\n});".to_string()));
    // The braces never open: the block runs to the last line.
    assert_eq!(tests[1], ("b".to_string(), "test(\"b\", g)\nlast".to_string()));
}

#[test]
fn python_tests_come_with_their_blocks() {
    let code = "class T:\n  def test_a(self):\n    x = 1\n\n    y = 2\n  def other(self):\n    pass\ndef test_b():\n  pass";
    let tests = extract_python_tests(code);
    assert_eq!(tests.len(), 2);
    assert_eq!(tests[0].0, "test_a");
    assert_eq!(tests[0].1, "  def test_a(self):\n    x = 1\n\n    y = 2");
    assert_eq!(tests[1], ("test_b".to_string(), "def test_b():\n  pass".to_string()));
}

#[test]
fn go_tests_come_with_their_bodies() {
    let code = "package x\n\nfunc TestAdd(t *testing.T) {\n\tadd()\n}\n\nfunc helper() {}\n";
    let tests = extract_go_tests(code);
    assert_eq!(tests.len(), 1);
    assert_eq!(tests[0].0, "TestAdd");
    assert_eq!(tests[0].1, "func TestAdd(t *testing.T) {\n\tadd()\n}");
}

#[test]
fn tests_are_found_by_language() {
    assert_eq!(language_of("rs"), Some(SourceLanguage::Rust));
    assert_eq!(language_of("tsx"), Some(SourceLanguage::JavaScript));
    assert_eq!(language_of("jsx"), Some(SourceLanguage::JavaScript));
    assert_eq!(language_of("py"), Some(SourceLanguage::Python));
    assert_eq!(language_of("go"), Some(SourceLanguage::Go));
    assert_eq!(language_of("md"), None);
    assert_eq!(language_of(""), None);
    let python = "def test_x():\n  pass";
    assert_eq!(extract_tests(python, "py").len(), 1);
    assert!(extract_tests(python, "rs").is_empty());
    assert!(extract_tests(python, "txt").is_empty());
    assert_eq!(extract_tests("func TestA() {\n}", "go").len(), 1);
    assert_eq!(extract_tests("it('x', f)", "ts").len(), 1);
}

#[test]
fn names_are_taken_from_lines() {
    assert_eq!(extract_fn_name("pub pub async fn  name (x: u8)"), Some("name".to_string()));
    assert_eq!(extract_fn_name("fn f()"), Some("f".to_string()));
    assert_eq!(extract_fn_name("fn f"), None);
    assert_eq!(extract_fn_name("async pub fn f()"), Some("pub fn f".to_string()));
    assert_eq!(extract_python_fn_name("async def test_a(self):"), Some("test_a".to_string()));
    assert_eq!(extract_python_fn_name("def x"), None);
    assert_eq!(extract_go_fn_name("func TestA(t *testing.T) {"), Some("TestA".to_string()));
    assert_eq!(extract_go_fn_name("func (s *S) TestA() {"), Some("".to_string()));
    assert_eq!(extract_js_test_name("it('a \"b\" c', f)"), Some("a \"b\" c".to_string()));
    assert_eq!(extract_js_test_name("it(\"x\")"), Some("x".to_string()));
    assert_eq!(extract_js_test_name("it('open"), None);
    assert_eq!(extract_js_test_name("it(f)"), None);
}

#[test]
fn blocks_are_cut_out_of_lines() {
    let lines: Vec<String> =
        ["a {", "  b { }", "}", "c"].iter().map(|s| s.to_string()).collect();
    assert_eq!(extract_function_body(&lines, 0), "a {\n  b { }\n}");
    assert_eq!(extract_function_body(&lines, 1), "  b { }");
    assert_eq!(extract_function_body(&lines, 2), "}\nc");
    assert_eq!(extract_js_block(&lines, 3), "c");
    assert_eq!(extract_function_body(&lines, 4), "");
    assert_eq!(extract_function_body(&lines, 9), "");
    let python: Vec<String> =
        ["def f():", "  a", "", "   b", "c", "  d"].iter().map(|s| s.to_string()).collect();
    assert_eq!(extract_python_block(&python, 0), "def f():\n  a\n\n   b");
    assert_eq!(extract_python_block(&python, 1), "  a\n\n   b");
    assert_eq!(extract_python_block(&python, 4), "c\n  d");
    assert_eq!(extract_python_block(&python, 5), "  d");
}
