use res::classify::{has_type_prefix, qualifier, valid_extension};
use res::path::{dir_name, locate};
use res::text::{chars_of, starts_with, str_eq, str_lt, string_from, tail_after};
use res::{sanitize, sanitize_name, valid_res, valid_res_path};

#[test]
fn valid_res_path_drawable() {
    assert!(valid_res_path("drawable", "drawable"));
}

#[test]
fn valid_res_path_drawable_mdpi() {
    assert!(valid_res_path("drawable", "drawable-mdpi"));
}

#[test]
fn invalid_res_path_layout() {
    assert!(!valid_res_path("drawable", "layout"));
}

#[test]
fn valid_res_path_bad() {
    assert!(!valid_res_path("drawable", "bad"));
}

#[test]
fn valid_res_image_png() {
    assert!(valid_res("image.png"));
}

#[test]
fn valid_res_not_image() {
    assert!(!valid_res("not-image"));
}

#[test]
fn sanitize_name_image() {
    let result = sanitize_name("image.png").unwrap();
    assert_eq!(result, "image.png")
}

#[test]
fn sanitize_name_underscore() {
    let result = sanitize_name("my_image.png").unwrap();
    assert_eq!(result, "my_image.png")
}

#[test]
fn sanitize_name_image_space() {
    let result = sanitize_name("my image.png").unwrap();
    assert_eq!(result, "my_image.png");
}

#[test]
fn sanitize_name_folds_upper_case() {
    assert_eq!(sanitize_name("My Image.PNG").unwrap(), "my_image.png");
    assert_eq!(sanitize("AZaz09"), "azaz09");
}

#[test]
fn sanitize_name_replaces_dash_and_space() {
    assert_eq!(sanitize("a-b c"), "a_b_c");
}

#[test]
fn sanitize_name_drops_other_characters() {
    assert_eq!(sanitize("im@ge(1)+é日本.png"), "imge1.png");
    assert_eq!(sanitize("[]{}!?#"), "");
    assert_eq!(sanitize(""), "");
}

#[test]
fn sanitize_name_takes_the_final_component() {
    assert_eq!(sanitize_name("/tmp/Some Dir/My File.png").unwrap(), "my_file.png");
    assert_eq!(sanitize_name("drawable-mdpi/").unwrap(), "drawable_mdpi");
}

#[test]
fn sanitize_name_without_file_name() {
    assert_eq!(sanitize_name("/"), None);
    assert_eq!(sanitize_name(""), None);
    assert_eq!(sanitize_name("a/.."), None);
}

#[test]
fn sanitize_output_is_canonical() {
    let raw = "The Quick-Brown_fox.JUMPS över 13 lazy dogs!.Png";
    let name = sanitize(raw);
    assert_eq!(name, "the_quick_brown_fox.jumps_ver_13_lazy_dogs.png");
    for c in name.chars() {
        assert!(c.is_ascii_lowercase() || c.is_ascii_digit() || c == '.' || c == '_');
    }
    assert!(name.chars().count() <= raw.chars().count());
}

#[test]
fn sanitize_twice_is_sanitize_once() {
    let once = sanitize("Ab-C d.XML");
    assert_eq!(once, "ab_c_d.xml");
    assert_eq!(sanitize(&once), once);
}

#[test]
fn valid_res_path_looks_at_the_final_component() {
    assert!(valid_res_path("drawable", "/home/me/res/drawable-mdpi"));
    assert!(!valid_res_path("drawable", "drawable/other"));
    assert!(!valid_res_path("drawable", "/"));
    assert!(!valid_res_path("drawable", ".."));
}

#[test]
fn valid_res_path_is_a_prefix_match() {
    assert!(valid_res_path("drawable", "drawableX"));
    assert!(!valid_res_path("drawable", "drawabl"));
    assert!(!valid_res_path("drawable", "Drawable"));
    assert!(valid_res_path("", "anything"));
}

#[test]
fn has_type_prefix_cases() {
    assert!(has_type_prefix("layout", "layout-land"));
    assert!(has_type_prefix("layout", "layout"));
    assert!(!has_type_prefix("layout", "lay"));
    assert!(!has_type_prefix("layout", "drawable"));
}

#[test]
fn valid_res_extensions() {
    assert!(valid_res("x.png"));
    assert!(valid_res("x.xml"));
    assert!(!valid_res("x.jpg"));
    assert!(!valid_res("x.PNG"));
    assert!(!valid_res("x.Xml"));
    assert!(!valid_res("x.png.bak"));
    assert!(valid_res("/a/b.c/x.tar.xml"));
}

#[test]
fn valid_res_needs_a_stem() {
    assert!(!valid_res(".png"));
    assert!(!valid_res("png"));
    assert!(!valid_res("dir.png/.."));
    assert!(!valid_res(""));
    assert!(valid_res("..png"));
}

#[test]
fn valid_extension_cases() {
    assert!(valid_extension("png"));
    assert!(valid_extension("xml"));
    assert!(!valid_extension("pn"));
    assert!(!valid_extension("pngx"));
    assert!(!valid_extension(""));
}

#[test]
fn qualifier_of_bucket_names() {
    assert_eq!(qualifier("drawable", "drawable-mdpi"), Some("mdpi".to_string()));
    assert_eq!(qualifier("layout", "layout-land"), Some("land".to_string()));
    assert_eq!(qualifier("drawable", "drawable"), None);
    assert_eq!(qualifier("drawable", "drawable-"), None);
    assert_eq!(qualifier("values", "values-en-rGB"), Some("rGB".to_string()));
    assert_eq!(qualifier("drawable", "drawableX"), Some("drawableX".to_string()));
}

#[test]
fn tail_after_last_separator() {
    assert_eq!(tail_after("a-b-c", '-'), "c");
    assert_eq!(tail_after("abc", '-'), "abc");
    assert_eq!(tail_after("abc-", '-'), "");
    assert_eq!(tail_after("-abc", '-'), "abc");
    assert_eq!(tail_after("", '-'), "");
}

#[test]
fn text_helpers() {
    assert_eq!(chars_of("aé日"), vec!['a', 'é', '日']);
    assert_eq!(string_from(&vec!['a', 'b', 'c'], 1), "bc");
    assert_eq!(string_from(&vec!['a', 'b', 'c'], 3), "");
    assert!(str_eq("abc", "abc"));
    assert!(!str_eq("abc", "abd"));
    assert!(!str_eq("abc", "ab"));
    assert!(starts_with("abc", ""));
    assert!(starts_with("abc", "ab"));
    assert!(!starts_with("ab", "abc"));
}

#[test]
fn names_are_ordered_by_code_point() {
    assert!(str_lt("a", "b"));
    assert!(!str_lt("b", "a"));
    assert!(!str_lt("a", "a"));
    assert!(str_lt("", "a"));
    assert!(!str_lt("a", ""));
    assert!(str_lt("ab", "abc"));
    assert!(str_lt("abc", "abd"));
    assert!(str_lt("Z", "a"));
    assert!(str_lt("a.png", "a_b.png"));
    assert!(str_lt("z", "é"));
    for (a, b) in [("a", "b"), ("img.png", "img.xml"), ("", ""), ("é", "z"), ("ab", "a")] {
        assert_eq!(str_lt(a, b), a < b);
    }
}

#[test]
fn dir_name_is_the_parents_final_component() {
    assert_eq!(dir_name("/res/drawable-mdpi/image.png"), Some("drawable-mdpi".to_string()));
    assert_eq!(dir_name("drawable/image.png"), Some("drawable".to_string()));
    assert_eq!(dir_name("image.png"), None);
    assert_eq!(dir_name("/image.png"), None);
    assert_eq!(dir_name(""), None);
}

#[test]
fn locate_a_directory() {
    let l = locate("/res", true).unwrap();
    assert_eq!(l.dir, "/res");
    assert_eq!(l.file, None);
}

#[test]
fn locate_a_file() {
    let l = locate("/res/image1.png", false).unwrap();
    assert_eq!(l.dir, "/res");
    assert_eq!(l.file, Some("image1.png".to_string()));
    let l = locate("image1.png", false).unwrap();
    assert_eq!(l.dir, "");
    assert_eq!(l.file, Some("image1.png".to_string()));
    let l = locate("/res/..", false).unwrap();
    assert_eq!(l.dir, "/res");
    assert_eq!(l.file, None);
}

#[test]
fn locate_without_parent() {
    assert!(locate("", false).is_none());
    assert!(locate("/", false).is_none());
}
