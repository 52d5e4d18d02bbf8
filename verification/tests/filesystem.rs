use acerola_mangadex::domain::filesystem::sanitize_folder_name;

#[test]
fn replaces_cross_platform_invalid_characters() {
    assert_eq!(
        sanitize_folder_name("Berserk: Deluxe/Edition?"),
        "Berserk_ Deluxe_Edition_"
    );
}

#[test]
fn protects_reserved_windows_names() {
    assert_eq!(sanitize_folder_name("CON"), "CON_");
}

#[test]
fn falls_back_when_name_is_empty() {
    assert_eq!(sanitize_folder_name("..."), "manga");
}

#[test]
fn collapses_white_space_runs() {
    assert_eq!(sanitize_folder_name("  One \u{2003}\u{a0} Piece\u{3000}Red  "), "One Piece Red");
    assert_eq!(sanitize_folder_name("One \t\n Piece"), "One __ Piece");
}

#[test]
fn strips_dots_and_spaces_at_the_ends() {
    assert_eq!(sanitize_folder_name(". .Title. ."), "Title");
}

#[test]
fn reserved_names_with_extensions_are_protected() {
    assert_eq!(sanitize_folder_name("nul.txt"), "nul_.txt");
    assert_eq!(sanitize_folder_name("con.txt"), "con_.txt");
    assert_eq!(sanitize_folder_name("Com1.tar.gz"), "Com1_.tar.gz");
}

#[test]
fn folder_names_are_cut_to_120_characters() {
    let long = "a".repeat(200);
    let name = sanitize_folder_name(&long);
    assert_eq!(name.chars().count(), 120);
    assert_eq!(name, "a".repeat(120));
}

#[test]
fn control_characters_are_replaced() {
    assert_eq!(sanitize_folder_name("a\u{1}b"), "a_b");
}

#[test]
fn bare_reserved_names_get_a_suffix_in_any_case() {
    assert_eq!(sanitize_folder_name("lpt9"), "lpt9_");
    assert_eq!(sanitize_folder_name(" Aux "), "Aux_");
    assert_eq!(sanitize_folder_name("COM10"), "COM10");
}
