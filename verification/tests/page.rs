use bruecke::bundle::{
    bundle_page, engine_script, glue_script, page_html, shell_body, shell_css, strip_header,
    without_exports,
};

fn chars(s: &str) -> Vec<char> {
    s.chars().collect()
}

fn text(v: Vec<char>) -> String {
    v.into_iter().collect()
}

#[test]
fn header_comment_removed() {
    let g = "/* @ts-self-types=\"./x.d.ts\" */\n\nlet a = 1;\n";
    assert_eq!(text(strip_header(&chars(g))), "let a = 1;\n");
    let g = "keep /* @ts-self-types no end";
    assert_eq!(text(strip_header(&chars(g))), g);
    let g = "a\n/* @ts-self-types */b";
    assert_eq!(text(strip_header(&chars(g))), "a\nb");
}

#[test]
fn export_lines_dropped() {
    let g = "function a() {}\n  export { a };\r\nlet b = 2;\r\n";
    assert_eq!(text(without_exports(&chars(g))), "function a() {}\nlet b = 2;");
    assert_eq!(text(without_exports(&chars(""))), "");
    assert_eq!(text(without_exports(&chars("export {x}"))), "");
    let g = "a\n\nb\rc\n";
    let expected = g.lines().filter(|l| !l.trim_start().starts_with("export {"))
        .collect::<Vec<_>>().join("\n");
    assert_eq!(text(without_exports(&chars(g))), expected);
}

#[test]
fn glue_made_plain_script() {
    let g = "/* @ts-self-types=\"./bruecke.d.ts\" */\n\
export function frame(t) { return t; }\n\
async function __wbg_init(module_or_path) {\n\
    module_or_path = new URL('bruecke_bg.wasm', import.meta.url);\n\
}\n\
export { initSync };\n\
export default __wbg_init;\n";
    let expected = "function frame(t) { return t; }\n\
async function init(module_or_path) {\n\
    throw new Error('standalone: pass WASM bytes to init()');\n\
}\n\
export default __wbg_init;";
    assert_eq!(glue_script(g), expected);
}

#[test]
fn engine_start_call_removed() {
    assert_eq!(engine_script("function main(){}\nmain()\n  "), "function main(){}");
    assert_eq!(engine_script("x();\nmain();  \n"), "x();");
    assert_eq!(engine_script("run();main();"), "run();");
    assert_eq!(engine_script("let a = 1;\n"), "let a = 1;\n");
    assert_eq!(engine_script("a\nmain() \nb\nmain()\n"), "a\nmain() \nb");
}

#[test]
fn shell_parts() {
    let shell = "<html><head><style>body { margin: 0 }</style></head>\n<body>\n  <canvas id=\"c\"></canvas>\n<script src=\"x.js\"></script></body></html>";
    assert_eq!(shell_css(shell), "body { margin: 0 }");
    assert_eq!(shell_body(shell), "<canvas id=\"c\"></canvas>");
    assert_eq!(shell_css("<p>"), "");
    assert_eq!(shell_body("<p>"), "");
}

#[test]
fn page_assembled() {
    let page = page_html("C", "B", "W", "G", "E");
    assert_eq!(
        page,
        "<!DOCTYPE html><html lang=\"en\"><head>\n<meta charset=\"UTF-8\"><meta name=\"viewport\" content=\"width=device-width,initial-scale=1.0\">\n<title>bruecke</title><style>C</style></head><body>\nB\n<script>\nconst __WASM_B64='W';\nfunction js_now(){return performance.now();}\nGE\n(async()=>{const b=Uint8Array.from(atob(__WASM_B64),c=>c.charCodeAt(0));try{await init({module_or_path:b});await main()}catch(e){fatal(e)}})();\n</script></body></html>\n"
    );
}

#[test]
fn bundle_combines_parts() {
    let shell = "<style>s</style><body> b <script>";
    let page = bundle_page(shell, b"Man", "export function f(){}\n", "go();\nmain()\n");
    assert_eq!(page, page_html("s", "b", "TWFu", "function f(){}", "go();"));
}
