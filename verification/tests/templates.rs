//! Templates expanded into code. The code that a template expands to is
//! checked through a small reader of the statements the library writes:
//! markup pushes, escaped values, includes and Rust code. Where a
//! template holds no Rust code, the reader also works out the HTML that
//! the code builds, for given values of its interpolations and includes.

use kaja_html_macro::expand::expand_html;
use kaja_html_macro::htmlquotes::ESCAPE_BLOCK;

const PUSH_START: &str = "__html_macro_content.push_str(\"";
const VARIABLE_START: &str = "let __html_variable = format!(\"{}\", ";
const VARIABLE_END: &str = ");\n";
const INCLUDE_START: &str = "let __included_html = ";
const INCLUDE_END: &str = ";\n__html_macro_content.push_str(__included_html.as_str());\n";
const DECLARATION: &str = "let mut __html_macro_content = String::new();\n";

#[derive(Debug, PartialEq)]
enum Part {
    Markup(String),
    Value(String),
    Include(String),
    Code(String),
}

/// Reads a string literal that starts at `s`; gives its value and the
/// text after it.
fn read_literal(s: &str) -> (String, &str) {
    let mut value = String::new();
    let mut chars = s.char_indices();
    loop {
        let (i, c) = chars.next().expect("unterminated literal");
        match c {
            '"' => return (value, &s[i + 1..]),
            '\\' => {
                let (_, e) = chars.next().expect("escape");
                match e {
                    'n' => value.push('\n'),
                    't' => value.push('\t'),
                    'r' => value.push('\r'),
                    '0' => value.push('\0'),
                    '\\' => value.push('\\'),
                    '"' => value.push('"'),
                    '\'' => value.push('\''),
                    'x' => {
                        let (_, a) = chars.next().unwrap();
                        let (_, b) = chars.next().unwrap();
                        let n = u32::from_str_radix(&format!("{}{}", a, b), 16).unwrap();
                        value.push(char::from_u32(n).unwrap());
                    }
                    'u' => {
                        let (_, open) = chars.next().unwrap();
                        assert_eq!(open, '{');
                        let mut hex = String::new();
                        loop {
                            let (_, h) = chars.next().unwrap();
                            if h == '}' {
                                break;
                            }
                            hex.push(h);
                        }
                        let n = u32::from_str_radix(&hex, 16).unwrap();
                        value.push(char::from_u32(n).unwrap());
                    }
                    other => panic!("unknown escape {:?}", other),
                }
            }
            _ => value.push(c),
        }
    }
}

/// The statements of generated code, in order.
fn parts(code: &str) -> Vec<Part> {
    let mut result = Vec::new();
    let mut rest = code;
    let mut pending = String::new();
    while !rest.is_empty() {
        let flush = |pending: &mut String, result: &mut Vec<Part>| {
            if !pending.is_empty() {
                result.push(Part::Code(pending.clone()));
                pending.clear();
            }
        };
        if let Some(after) = rest.strip_prefix(PUSH_START) {
            flush(&mut pending, &mut result);
            let (value, after) = read_literal(after);
            let after = after.strip_prefix(");\n").expect("end of push");
            result.push(Part::Markup(value));
            rest = after;
        } else if let Some(after) = rest.strip_prefix(VARIABLE_START) {
            flush(&mut pending, &mut result);
            let end = after.find(VARIABLE_END).expect("end of value");
            result.push(Part::Value(after[..end].to_string()));
            let after = &after[end + VARIABLE_END.len()..];
            rest = after.strip_prefix(ESCAPE_BLOCK).expect("escape block");
        } else if let Some(after) = rest.strip_prefix(INCLUDE_START) {
            flush(&mut pending, &mut result);
            let end = after.find(INCLUDE_END).expect("end of include");
            result.push(Part::Include(after[..end].to_string()));
            rest = &after[end + INCLUDE_END.len()..];
        } else {
            let c = rest.chars().next().unwrap();
            pending.push(c);
            rest = &rest[c.len_utf8()..];
        }
    }
    if !pending.is_empty() {
        result.push(Part::Code(pending));
    }
    result
}

fn expand(source: &str) -> Vec<Part> {
    let code = expand_html(source, 1).expect("the template expands");
    assert!(code.starts_with(DECLARATION));
    parts(&code[DECLARATION.len()..])
}

/// All markup text, one push after the other.
fn markup(parts: &[Part]) -> String {
    let mut s = String::new();
    for p in parts {
        if let Part::Markup(m) = p {
            s.push_str(m);
        }
    }
    s
}

fn values(parts: &[Part]) -> Vec<String> {
    parts
        .iter()
        .filter_map(|p| match p {
            Part::Value(v) => Some(v.clone()),
            _ => None,
        })
        .collect()
}

fn includes(parts: &[Part]) -> Vec<String> {
    parts
        .iter()
        .filter_map(|p| match p {
            Part::Include(v) => Some(v.clone()),
            _ => None,
        })
        .collect()
}

fn rust_code(parts: &[Part]) -> String {
    let mut s = String::new();
    for p in parts {
        if let Part::Code(c) = p {
            s.push_str(c);
        }
    }
    s
}

/// Reads a character literal's inside: `x`, `\'` or `\\`.
fn char_literal(s: &str) -> char {
    match s {
        "\\'" => '\'',
        "\\\\" => '\\',
        _ => {
            let mut chars = s.chars();
            let c = chars.next().expect("a character");
            assert!(chars.next().is_none(), "one character: {:?}", s);
            c
        }
    }
}

/// The replacements that the escaping code makes, read from its `match`
/// arms `'c' => __escaped.push_str("entity"),`.
fn escape_table() -> Vec<(char, String)> {
    let mut table = Vec::new();
    for line in ESCAPE_BLOCK.lines() {
        let line = line.trim();
        if let Some((pattern, action)) = line.split_once(" => __escaped.push_str(\"") {
            let inside = pattern.strip_prefix('\'').and_then(|p| p.strip_suffix('\'')).expect("a char pattern");
            let entity = action.strip_suffix("\"),").expect("the end of an arm");
            table.push((char_literal(inside), entity.to_string()));
        }
    }
    table
}

/// The characters that the escaping code's guard looks for, read from its
/// `[...].contains(&c)`.
fn escape_guard() -> Vec<char> {
    let start = ESCAPE_BLOCK.find("|c| [").expect("the guard") + "|c| [".len();
    let end = start + ESCAPE_BLOCK[start..].find("].contains").expect("the end of the guard");
    ESCAPE_BLOCK[start..end]
        .split(", ")
        .map(|p| char_literal(p.strip_prefix('\'').and_then(|p| p.strip_suffix('\'')).expect("a char")))
        .collect()
}

/// What the escaping code does to a value.
fn escape(value: &str) -> String {
    let table = escape_table();
    let mut escaped = String::new();
    for c in value.chars() {
        match table.iter().find(|(k, _)| *k == c) {
            Some((_, entity)) => escaped.push_str(entity),
            None => escaped.push(c),
        }
    }
    escaped
}

#[test]
fn escape_block_replaces_html_characters() {
    let table = escape_table();
    let expected: Vec<(char, String)> = vec![
        ('<', "&lt;".to_string()),
        ('>', "&gt;".to_string()),
        ('&', "&amp;".to_string()),
        ('\'', "&apos;".to_string()),
        ('"', "&quot;".to_string()),
        ('\\', "&#x5c;".to_string()),
        ('=', "&equals;".to_string()),
    ];
    assert_eq!(table, expected);
    assert!(table.iter().all(|(c, _)| *c != '/'));
    let guard = escape_guard();
    assert_eq!(guard, table.iter().map(|(c, _)| *c).collect::<Vec<char>>());
    assert_eq!(escape("<a href='x'>\\</a>"), "&lt;a href&equals;&apos;x&apos;&gt;&#x5c;&lt;/a&gt;");
}

/// The HTML that code without Rust statements builds, given the values of
/// its interpolations and the strings of its includes.
fn html(parts: &[Part], vals: &[(&str, &str)], incs: &[(&str, &str)]) -> String {
    let mut s = String::new();
    for p in parts {
        match p {
            Part::Markup(m) => s.push_str(m),
            Part::Value(v) => {
                let value = vals.iter().find(|(k, _)| k == v).expect("a value").1;
                s.push_str(&escape(value));
            }
            Part::Include(e) => {
                let value = incs.iter().find(|(k, _)| k == e).expect("an include").1;
                s.push_str(value);
            }
            Part::Code(c) => panic!("Rust code in the template: {:?}", c),
        }
    }
    s
}

#[test]
fn include_inner_html() {
    let login_form = expand(
        r#"{
        <h1>Form: $(&data.message)</h1>
    }"#,
    );
    let form = html(&login_form, &[("&data.message", "test data")], &[]);
    let content = html(
        &expand(
            r#"{
        <include login_form(&test.data) />
    }"#,
        ),
        &[],
        &[("login_form(&test.data)", &form)],
    );
    assert!(content.contains("test data"));
    assert!(content.contains("Form"));

    let inner = expand(
        r#"{
        <rust>
            if !data.logged_in {
                <markup>
                    <include login_form(&data) />
                </markup>
            }
        </rust>
    }"#,
    );
    assert_eq!(includes(&inner), vec!["login_form(&data)".to_string()]);
    assert!(rust_code(&inner).contains("if !data.logged_in {"));
    let content = html(
        &expand(
            r#"{
        <include get_inner_html(&test.data) />
    }"#,
        ),
        &[],
        &[("get_inner_html(&test.data)", &form)],
    );
    assert!(content.contains("Form"));
}

#[test]
fn injection_test_include() {
    let parts = expand(
        r#"{
        <html>
            <body>
                <include include_tag_function() />
            </body>
        </html>
    }"#,
    );
    let html = html(&parts, &[], &[("include_tag_function()", "<includedtag>OK</includedtag>")]);
    assert!(html.contains("<includedtag>OK</includedtag>"));
}

#[test]
fn test_escape_tag() {
    let parts = expand(
        r#"{
        <html>
            <body>
                $injection
                $(another_injection())
                <include include_tag_function() />
            </body>
        </html>
    }"#,
    );
    let html = html(
        &parts,
        &[
            ("injection", "<script>test</script>"),
            ("another_injection()", "<script>anothertest</script>"),
        ],
        &[("include_tag_function()", "<includedtag>OK</includedtag>")],
    );
    assert!(html.contains("<html>"));
    assert!(html.contains("</html>"));
    assert!(!html.contains("<script>test</script>"));
    assert!(html.contains("&lt;script&gt;test&lt;/script&gt;"));
    assert!(html.contains("&lt;script&gt;anothertest&lt;/script&gt;"));
    assert!(html.contains("<includedtag>OK</includedtag>"));
}

#[test]
fn test_interleaved() {
    let parts = expand(
        r#"{
        <h1>Headline</h1>
        <rust>
            let a = 1;
            <markup>Content</markup>
        </rust>
    }"#,
    );
    let html = markup(&parts);
    assert!(!html.contains("let a = 1;"));
    assert!(!html.contains("markup"));
    assert!(html.contains("Content"));
    assert!(rust_code(&parts).contains("let a = 1;"));
}

#[test]
fn test_one_rust() {
    let parts = expand(
        r#"{
        <h1>Headline</h1>
        <rust>
            let a = 1;
        </rust>
    }"#,
    );
    assert!(!markup(&parts).contains("let a = 1;"));
    assert!(rust_code(&parts).contains("let a = 1;"));
}

#[test]
fn test_adding_rust_block_backwards() {
    let parts = expand(
        r#"{
        <div>
            <rust>
                for i in 1..=5 {
                    let element_id = format!("row_{:?} ", i);
                    </rust>a little bit backwards but it has to work. $element_id.<rust>
                }
            </rust>
        </div>
    }"#,
    );
    let content = markup(&parts);
    assert!(!content.contains("<rust>"));
    assert!(!content.contains("</rust>"));
    assert!(!content.contains("<markup>"));
    assert!(!content.contains("</markup>"));
    assert!(content.contains("little bit backwards"));
    assert_eq!(values(&parts), vec!["element_id".to_string()]);
    assert!(rust_code(&parts).contains("format!(\"row_{:?} \", i);"));
    assert!(rust_code(&parts).contains("for i in 1..=5 {"));
}

#[test]
fn test_adding_rust_block_and_markup() {
    let parts = expand(
        r#"{
        <div>
            <rust>
                for i in 1..=5 {
                    let element_id = format!("id_{:?} ", i);
                    <markup>The proper way: $element_id</markup>
                }
            </rust>
        </div>
    }"#,
    );
    let content = markup(&parts);
    assert!(!content.contains("<rust>"));
    assert!(!content.contains("</rust>"));
    assert!(!content.contains("<markup>"));
    assert!(!content.contains("</markup>"));
    assert!(content.contains("The proper way:"));
    assert_eq!(values(&parts), vec!["element_id".to_string()]);
    assert!(rust_code(&parts).contains("format!(\"id_{:?} \", i);"));
}

#[test]
fn test_var() {
    let parts = expand(
        r#"{
        <html>
            <body>
                $variable
            </body>
        </html>
    }"#,
    );
    let html = html(&parts, &[("variable", "test")], &[]);
    assert!(html.contains("test"));
}

#[test]
fn test_html_js_included() {
    let parts = expand(
        r#"{
        <html>
        <header>
            <script type="module">
                import init, { update_text } from "/static/wasm_module.js";

                async function start() {
                    await init();
                    update_text("output", "tested");
                }

                start();
            </script>
        </header>
        <body>
        <h1>$test_var<h1/>
        </body>
        </html>
    }"#,
    );
    let html = html(&parts, &[("test_var", "Headline")], &[]);
    assert!(html.contains("<html>"));
    assert!(html.contains("<script "));
    assert!(html.contains("update_text(\"output\", \"tested\");"));
    assert!(html.contains("<h1>Headline<h1/>"));
}

#[test]
fn test_exp() {
    let parts = expand(
        r#"{
        <html>
            <body>
                $(variable)
            </body>
        </html>
    }"#,
    );
    let html = html(&parts, &[("variable", "test")], &[]);
    assert!(html.contains("test"));
}

#[test]
fn other_test_include() {
    let parts = expand(
        r#"{
        <include project_table() />
    }"#,
    );
    let html = html(&parts, &[], &[("project_table()", "<table></table>")]);
    assert_eq!(html.trim(), "<table></table>")
}

#[test]
fn test_separate_code_and_html() {
    let parts = expand(
        r#"{
        <h1>Hello World</h1>

        <div>
            <rust>
                for i in 1..=5 {
                    let element_id = format!("row_{}", i);
                    <markup>$element_id</markup>
                }
            </rust>
        </div>
    }"#,
    );
    let html = markup(&parts);
    assert!(html.contains("<h1>Hello World</h1>"));
    assert!(html.contains("<div>"));
    assert!(html.contains("</div>"));
    assert_eq!(values(&parts), vec!["element_id".to_string()]);
    assert!(!html.contains("<rust>"));
}

#[test]
fn test_should_not_panic() {
    let menu = expand(
        r#"{
        <span>$title <a href="index.html">Start</a></span>
    }"#,
    );
    let menu_html = html(&menu, &[("title", "Start")], &[]);
    let parts = expand(
        r#"{
        <p>Lorem Ipsum</p>
        <p>White space is important here: Lorem Ipsum     (test) or (test)</p>

        <include menu(page_title) />

        <div>
            <rust>
                for i in 1..=5 {
                    let element_id = format!("row_{:?} ", i);
                    </rust>a little bit backwards but it has to work. $element_id.<rust>
                }
            </rust>
        </div>

        <div>
            <rust>
                for i in 1..=5 {
                    let element_id = format!("id_{:?} ", i);
                    <markup>The proper way: $element_id</markup>
                }
            </rust>
        </div>
    }"#,
    );
    let content = markup(&parts);
    assert!(content.contains("White space is important here: Lorem Ipsum     (test) or (test)"));
    assert!(!content.contains("<rust>"));
    assert!(!content.contains("</rust>"));
    assert!(!content.contains("<markup>"));
    assert!(!content.contains("</markup>"));
    assert_eq!(includes(&parts), vec!["menu(page_title)".to_string()]);
    assert!(menu_html.contains("<span>Start"));
}

#[test]
fn test_html_tag() {
    let parts = expand(
        r#"{
        <html>
            <header>
            </header>
            <body>
            </body>
        </html>
    }"#,
    );
    let html = html(&parts, &[], &[]);
    assert!(html.contains("<html>"));
    assert!(html.contains("</html>"));
    assert!(html.contains("<body>"));
    assert!(html.contains("</body>"));
}

#[test]
fn test_expression_algebra() {
    let parts = expand(
        r#"{
        <html>
            <body>
                $(1 + 1), $((1.0 * 3) / 2)
            </body>
        </html>
    }"#,
    );
    assert_eq!(values(&parts), vec!["1 + 1".to_string(), "(1.0 * 3) / 2".to_string()]);
    let html = html(&parts, &[("1 + 1", "2"), ("(1.0 * 3) / 2", "1.5")], &[]);
    assert!(html.contains("<html>"));
    assert!(html.contains("</html>"));
    assert!(html.contains("2, 1.5"));
}

#[test]
fn test_expression() {
    let parts = expand(
        r#"{
        <html>
            <body>
                <div arg="$(some_arg)"></div>
            </body>
        </html>
    }"#,
    );
    let html = html(&parts, &[("some_arg", "test")], &[]);
    assert!(html.contains("<div arg=\"test\"></div>"));
}

#[test]
fn test_include_fn() {
    let parts = expand(
        r#"{
        <include test_import() />
    }"#,
    );
    let content = html(&parts, &[], &[("test_import()", "TEST")]);
    assert!(content.contains("TEST"));
}

#[test]
fn test_space() {
    let parts = expand(
        r#"{
        <div>Status: $(resp.status) Elapsed: $(resp.elapsed)ms</div>
    }"#,
    );
    let content = html(&parts, &[("resp.status", "200"), ("resp.elapsed", "100")], &[]);
    let expected = "Status: 200 Elapsed: 100ms";
    assert!(content.contains(expected));
}

#[test]
fn test_script_compiles() {
    let parts = expand(
        r#"{
        <script>
            function test() {
                let result = "TEST";

                if (result === "TEST") {
                    console.log(result);
                }

                return result;
            }
            </script>
    }"#,
    );
    let content = html(&parts, &[], &[]);
    assert!(content.contains("<script>"));
}

#[test]
fn test_script_string_compiles() {
    let parts = expand(
        r###"{r#"
        <script>
            function test() {
                let result = 'TEST';
                let inter = "$test";
                return result;
            }
            </script>
    "#}"###,
    );
    let content = html(&parts, &[("test", "bird")], &[]);
    assert!(content.contains("bird"));
}

#[test]
fn test_space_after_var() {
    let parts = expand(
        r#"{
        <rust>
            for task in &all_tasks {
                let minutes: u64 = task.target_time.as_secs() / 60;

                <markup>
                    <h2>$(task.title)</h2>
                    <p>Time to complete: $minutes minutes</p>
                </markup>
            }
        </rust>
    }"#,
    );
    assert_eq!(values(&parts), vec!["task.title".to_string(), "minutes".to_string()]);
    let markup_parts: Vec<Part> = parts.into_iter().filter(|p| !matches!(p, Part::Code(_))).collect();
    let content = html(&markup_parts, &[("task.title", "Test Task"), ("minutes", "1")], &[]);
    assert!(content.contains("1 minutes"));
}

#[test]
fn test_compiles() {
    let parts = expand(
        r#"{
        <h1>Hello $some_variable</h1>
        <h1>Struct $some_struct</h1>
        <h1>Number Hello Prime $(&other_struct.number)</h1>
        <h1>Hello Number plus one $(the_number() + 1)</h1>

        <p>Lorem Ipsum ... (test)</p>
        <p>$("White space is important ... here: Lorem  Ipsum  (test)")</p>

        <include child_component_simple_loop() />
        <include child_component_expr() />

        <div id="self_closing" />

        <div>
            <rust>
                for i in 1..=5 {
                    </rust>inline in loop<rust>
                }
            </rust>

            <h2>A Generated List</h2>
            <rust>
                for i in 1..=5 {
                    let element_id = format!("Fruits {:?} ", i);
                    <markup>SubTreeComponent: $element_id</markup>
                }
            </rust>

            <h2>Five Included Components</h2>
            <rust>
                for i in 1..=5 {
                    let element_id = format!("generated_component_{:?}", i);
                    <markup><include create_component(element_id) /></markup>
                }
            </rust>
        </div>
    }"#,
    );
    let html = markup(&parts);
    assert!(html.contains("<h2>Five Included Components</h2>"));
    assert!(html.contains("inline in loop"));
    assert!(html.contains("SubTreeComponent: "));
    assert!(values(&parts).contains(&"element_id".to_string()));
    assert!(includes(&parts).contains(&"create_component(element_id)".to_string()));

    let component = expand(
        r#"{
        <div id="$component_id">created</div>
    }"#,
    );
    let created = html_of(&component, "component_id", "generated_component_1");
    assert!(created.contains("<div id=\"generated_component_1\">created</div>"));
}

fn html_of(parts: &[Part], name: &str, value: &str) -> String {
    html(parts, &[(name, value)], &[])
}
