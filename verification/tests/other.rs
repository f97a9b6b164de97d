use simple_todo::messages::{hook_script, not_found_message, ListKind};
use simple_todo::reader::{choose_title, reader_page};
use simple_todo::reading::JsonReadingList;
use simple_todo::storage::JsonStorage;

#[test]
fn default_resolves_to_config_dir() {
    let rl = JsonReadingList::default();
    assert!(rl.path.to_string_lossy().contains("todo"));
    assert!(rl.path.to_string_lossy().ends_with("reading.json"));
}

#[test]
fn storage_keeps_the_path_it_was_given() {
    let p = std::path::PathBuf::from("/tmp/some/tasks.json");
    let s = JsonStorage::new(p.clone());
    assert_eq!(s.path(), &p);
    let d = JsonStorage::default();
    assert!(d.path().to_string_lossy().ends_with("tasks.json"));
}

#[test]
fn not_found_messages_name_the_list() {
    assert_eq!(not_found_message(ListKind::Tasks, 99), "no task #99");
    assert_eq!(not_found_message(ListKind::Reading, 7), "no reading item #7");
    assert_eq!(not_found_message(ListKind::House, 0), "no house project #0");
}

#[test]
fn hook_script_path() {
    assert_eq!(hook_script("on_add"), "hooks/on_add.sh");
}

#[test]
fn title_falls_back_to_host() {
    assert_eq!(choose_title("http://localhost:1/page", None), "localhost:1");
    assert_eq!(choose_title("https://x.org/a", Some("<p>no title</p>")), "x.org");
    assert_eq!(choose_title("https://x.org/a", Some("<title> Hi </title>")), "Hi");
}

#[test]
fn reader_page_escapes_title_and_host() {
    let page = reader_page("Test <Page>", "http://localhost:1/unreachable", "");
    assert!(page.contains("<title>Test &lt;Page&gt;</title>"));
    assert!(page.contains("<h1>Test &lt;Page&gt;</h1>"));
    assert!(page.contains("<span class=\"domain\">localhost:1</span>"));
    assert!(page.contains("&larr; Back"));
    assert!(page.starts_with("<!doctype html>"));
    assert!(page.ends_with("</html>"));
}

#[test]
fn reader_page_holds_main_content() {
    let page = reader_page("T", "https://e.com/x", "<body><article><p>Hi & bye</p></article></body>");
    assert!(page.contains("<div class=\"reader-content\">\n      <p>Hi & bye</p>\n    </div>"));
}

#[test]
fn reader_page_drops_scripts_and_styles() {
    let page = reader_page(
        "T",
        "https://e.com/x",
        "<body><script>alert(1)</script><p>text</p><style>p{}</style></body>",
    );
    assert!(page.contains("<div class=\"reader-content\">\n      <p>text</p>\n    </div>"));
    assert!(!page.contains("alert(1)"));
}
