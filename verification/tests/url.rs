use cosy::url::{file_extension, kind_of_media_type};
use cosy::{infer_url_kind, is_image_url, is_url, UrlKind};

#[test]
fn test_infer_url_kind() {
    assert_eq!(
        infer_url_kind("https://example.com/image.png"),
        Some(UrlKind::Image)
    );
    assert_eq!(
        infer_url_kind("https://example.com/document.pdf"),
        Some(UrlKind::Other)
    );
    assert_eq!(infer_url_kind("not a url"), None);
}

#[test]
fn url_kind_goes_by_the_last_segment() {
    assert_eq!(infer_url_kind("https://example.com/a.png/b.txt"), Some(UrlKind::Other));
    assert_eq!(infer_url_kind("https://example.com/a.txt/b.JPG"), Some(UrlKind::Image));
    assert_eq!(infer_url_kind("https://example.com/a.tar.gif?q=1#f"), Some(UrlKind::Image));
    assert_eq!(infer_url_kind("https://example.com"), Some(UrlKind::Other));
    assert_eq!(infer_url_kind("https://example.com/png"), Some(UrlKind::Image));
}

#[test]
fn url_that_cannot_be_a_base_is_other() {
    assert_eq!(infer_url_kind("data:text/plain,Hello.png"), Some(UrlKind::Other));
    assert_eq!(infer_url_kind("mailto:a@b.png"), Some(UrlKind::Other));
}

#[test]
fn extension_is_what_follows_the_last_dot() {
    assert_eq!(file_extension("image.png"), "png");
    assert_eq!(file_extension("a.tar.gz"), "gz");
    assert_eq!(file_extension("name"), "name");
    assert_eq!(file_extension("name."), "");
    assert_eq!(file_extension(".hidden"), "hidden");
    assert_eq!(file_extension(""), "");
}

#[test]
fn only_the_image_type_is_an_image() {
    assert_eq!(kind_of_media_type("image"), UrlKind::Image);
    assert_eq!(kind_of_media_type("application"), UrlKind::Other);
    assert_eq!(kind_of_media_type("images"), UrlKind::Other);
    assert_eq!(kind_of_media_type("imag"), UrlKind::Other);
    assert_eq!(kind_of_media_type("Image"), UrlKind::Other);
    assert_eq!(kind_of_media_type(""), UrlKind::Other);
}

#[test]
fn url_like_prefixes() {
    assert!(is_url("http://x"));
    assert!(is_url("https://x"));
    assert!(is_url("http://"));
    assert!(is_url("https://"));
    assert!(!is_url("https:/x"));
    assert!(!is_url("http:/"));
    assert!(!is_url("ftp://x"));
    assert!(!is_url("HTTP://x"));
    assert!(!is_url(" http://x"));
    assert!(!is_url("not a url"));
    assert!(!is_url(""));
}

#[test]
fn image_url_like() {
    assert!(is_image_url("https://x/y.png"));
    assert!(is_image_url("http://x/y.jpg"));
    assert!(is_image_url("http://x/y.gif"));
    assert!(is_image_url("http://x/y.webp"));
    assert!(!is_image_url("http://x/y.svg"));
    assert!(!is_image_url("x/y.png"));
    assert!(!is_image_url("http://x/y.png "));
}
