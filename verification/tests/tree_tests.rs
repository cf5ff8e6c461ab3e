use tlx::tree::Node;

fn comps(p: &str) -> Vec<String> {
    p.split('/').map(String::from).collect()
}

fn ls_r(n: &Node) -> String {
    let mut out = Vec::new();
    n.generate_texmf_dist_ls_r(&mut out);
    String::from_utf8(out).unwrap()
}

#[test]
fn new_directories_are_reported_once() {
    let mut t = Node::default();
    let created = t.insert_file_path(&comps("texmf-dist/tex/latex/foo.sty"));
    assert_eq!(
        created,
        vec![comps("texmf-dist"), comps("texmf-dist/tex"), comps("texmf-dist/tex/latex")]
    );
    let again = t.insert_file_path(&comps("texmf-dist/tex/latex/bar.sty"));
    assert!(again.is_empty());
    let deeper = t.insert_file_path(&comps("texmf-dist/tex/plain/x.tex"));
    assert_eq!(deeper, vec![comps("texmf-dist/tex/plain")]);
}

#[test]
fn law_inserting_a_directory_twice_creates_nothing() {
    let mut t = Node::default();
    assert_eq!(t.insert_dir(&comps("a/b/c")).len(), 3);
    assert!(t.insert_dir(&comps("a/b/c")).is_empty());
    assert!(t.insert_dir(&comps("a/b")).is_empty());
    assert!(t.insert_file_path(&comps("a/b/c/file")).is_empty());
    assert!(t.child("a").unwrap().child("b").unwrap().child("c").is_some());
}

#[test]
fn files_without_a_name_add_only_directories() {
    let mut t = Node::default();
    assert_eq!(t.insert_file_path(&comps("a/..")), vec![comps("a")]);
    assert!(t.child("a").unwrap().files.is_empty());
    assert!(t.files.is_empty());
    assert!(t.insert_file_path(&[]).is_empty());
    assert!(t.insert_file_path(&["/".to_string()]).is_empty());
    assert!(t.insert_file_path(&["top.txt".to_string()]).is_empty());
    assert_eq!(t.files, vec!["top.txt".to_string()]);
}

#[test]
fn ls_r_of_an_empty_tree() {
    let t = Node::default();
    assert_eq!(
        ls_r(&t),
        "% ls-R -- filename database for kpathsea; do not change this line.\n\n./:\nls-R\n\n"
    );
}

#[test]
fn ls_r_lists_sorted_blocks() {
    let mut t = Node::default();
    t.insert_file_path(&comps("tex/latex/zeta.sty"));
    t.insert_file_path(&comps("tex/latex/alpha.sty"));
    t.insert_file_path(&comps("doc/readme"));
    t.insert_file_path(&comps("ls-R"));
    t.insert_file_path(&comps("Makefile"));
    t.insert_dir(&comps("tex/empty"));
    let expected = "% ls-R -- filename database for kpathsea; do not change this line.

./:
Makefile
doc
ls-R
tex

./doc:
readme

./tex:
empty
latex

./tex/latex:
alpha.sty
zeta.sty

";
    assert_eq!(ls_r(&t), expected);
}

#[test]
fn law_ls_r_names_are_ascending_by_bytes() {
    let mut t = Node::default();
    for name in ["b", "B", "a", "ab", "a.b", "_x"] {
        t.insert_file_path(&comps(&format!("d/{name}")));
    }
    let text = ls_r(&t);
    let block: Vec<&str> = text.split("./d:\n").nth(1).unwrap().lines().take_while(|l| !l.is_empty()).collect();
    assert_eq!(block, vec!["B", "_x", "a", "a.b", "ab", "b"]);
    let mut sorted = block.clone();
    sorted.sort();
    assert_eq!(block, sorted);
}
