use dota_terrain_mod::steam::{find_library_path, first_listed};

fn library(index: u32, path: &str, apps: &[&str]) -> String {
    let mut s = format!("\t\"{}\"\n\t{{\n\t\t\"path\"\t\t\"{}\"\n\t\t\"apps\"\n\t\t{{\n", index, path);
    for app in apps {
        s.push_str(&format!("\t\t\t\"{}\"\t\t\"12345\"\n", app));
    }
    s.push_str("\t\t}\n\t}\n");
    s
}

fn library_file(libs: &[String]) -> String {
    let mut s = String::from("\"libraryfolders\"\n{\n");
    for l in libs {
        s.push_str(l);
    }
    s.push_str("}\n");
    s
}

#[test]
fn finds_the_library_that_lists_the_game() {
    let text = library_file(&[library(0, "C:\\\\Program Files (x86)\\\\Steam", &["228980", "570"])]);
    assert_eq!(find_library_path(&text), Some(String::from("C:\\\\Program Files (x86)\\\\Steam")));
}

#[test]
fn skips_libraries_without_the_game() {
    let text = library_file(&[
        library(0, "C:\\\\Program Files (x86)\\\\Steam", &["228980"]),
        library(1, "D:\\\\Games\\\\SteamLibrary", &["570"]),
    ]);
    assert_eq!(find_library_path(&text), Some(String::from("D:\\\\Games\\\\SteamLibrary")));
}

#[test]
fn no_library_lists_the_game() {
    let text = library_file(&[library(0, "C:\\\\Steam", &["228980", "5700"])]);
    assert_eq!(find_library_path(&text), None);
    assert_eq!(find_library_path(""), None);
}

#[test]
fn first_listed_block_wins() {
    let found = vec![false, true, true];
    let paths = vec![Some(String::from("a")), None, Some(String::from("c"))];
    assert_eq!(first_listed(&found, &paths), None);
    let paths = vec![Some(String::from("a")), Some(String::from("b")), Some(String::from("c"))];
    assert_eq!(first_listed(&found, &paths), Some(String::from("b")));
    assert_eq!(first_listed(&vec![false, false], &paths[..2].to_vec()), None);
    assert_eq!(first_listed(&Vec::new(), &Vec::new()), None);
}
