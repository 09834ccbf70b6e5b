use file_tree::{data_url_from_payload, image_data_url, mime_type};

#[test]
fn mime_types_by_extension() {
    assert_eq!(mime_type("pics/a.png"), "image/png");
    assert_eq!(mime_type("a.jpg"), "image/jpeg");
    assert_eq!(mime_type("a.jpeg"), "image/jpeg");
    assert_eq!(mime_type("a.gif"), "image/gif");
    assert_eq!(mime_type("a.webp"), "image/webp");
    assert_eq!(mime_type("a.bmp"), "image/bmp");
    assert_eq!(mime_type("a.PNG"), "application/octet-stream");
    assert_eq!(mime_type("a.svg"), "application/octet-stream");
    assert_eq!(mime_type("png"), "application/octet-stream");
    assert_eq!(mime_type(""), "application/octet-stream");
}

#[test]
fn url_from_encoded_payload() {
    assert_eq!(data_url_from_payload("x.gif", "R0lG"), "data:image/gif;base64,R0lG");
    assert_eq!(data_url_from_payload("x", ""), "data:application/octet-stream;base64,");
}

#[test]
fn url_from_image_bytes() {
    assert_eq!(image_data_url("x.png", &b"hi".to_vec()), "data:image/png;base64,aGk=");
    assert_eq!(image_data_url("x.bmp", &b"Man".to_vec()), "data:image/bmp;base64,TWFu");
    assert_eq!(image_data_url("x.jpg", &vec![0xff, 0xfe]), "data:image/jpeg;base64,//4=");
    assert_eq!(image_data_url("x.webp", &vec![]), "data:image/webp;base64,");
}
