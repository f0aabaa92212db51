use image_tags::error::ErrorKind;
use image_tags::query::TagFilter;
use image_tags::requests::tag_filter_from_params;
use image_tags::requests::GetImagesQueryParams;
use image_tags::requests::ImageInput;
use image_tags::requests::NewImageRequest;
use image_tags::text::split_commas;

#[test]
fn splitting_on_commas_keeps_every_item() {
    assert_eq!(split_commas("cat,dog"), vec!["cat".to_string(), "dog".to_string()]);
    assert_eq!(split_commas("cat"), vec!["cat".to_string()]);
    assert_eq!(split_commas(""), vec!["".to_string()]);
    assert_eq!(
        split_commas("a,,b"),
        vec!["a".to_string(), "".to_string(), "b".to_string()]
    );
    assert_eq!(split_commas("a,"), vec!["a".to_string(), "".to_string()]);
}

#[test]
fn objects_parameter_asks_for_all_tags() {
    let params = GetImagesQueryParams {
        objects: Some("cat,dog".to_string()),
        some_objects: None,
    };
    match tag_filter_from_params(&params).unwrap() {
        TagFilter::ContainsAllTags(names) => {
            assert_eq!(names, vec!["cat".to_string(), "dog".to_string()]);
        }
        _ => panic!("objects must ask for all tags"),
    }
}

#[test]
fn some_objects_parameter_asks_for_any_tag() {
    let params = GetImagesQueryParams {
        objects: None,
        some_objects: Some("bird".to_string()),
    };
    match tag_filter_from_params(&params).unwrap() {
        TagFilter::ContainsSomeTags(names) => {
            assert_eq!(names, vec!["bird".to_string()]);
        }
        _ => panic!("some_objects must ask for some tags"),
    }
}

#[test]
fn no_parameters_ask_for_everything() {
    let params = GetImagesQueryParams { objects: None, some_objects: None };
    assert!(matches!(tag_filter_from_params(&params), Ok(TagFilter::NoFilter)));
}

#[test]
fn both_parameters_are_an_invalid_input() {
    let params = GetImagesQueryParams {
        objects: Some("cat".to_string()),
        some_objects: Some("dog".to_string()),
    };
    match tag_filter_from_params(&params) {
        Err(e) => assert_eq!(e.kind, ErrorKind::InvalidInput),
        Ok(_) => panic!("both lists at once must be rejected"),
    }
}

#[test]
fn a_url_request_yields_a_url_input() {
    let request = NewImageRequest {
        image_url: Some("http://example.test/a.png".to_string()),
        image_base64: None,
        label: None,
        object_detection: false,
    };
    match request.image_input().unwrap() {
        ImageInput::ImageUrl(u) => assert_eq!(u, "http://example.test/a.png"),
        _ => panic!("a URL request must yield a URL input"),
    }
}

#[test]
fn a_data_request_yields_a_data_input() {
    let request = NewImageRequest {
        image_url: None,
        image_base64: Some("ZGF0YQ==".to_string()),
        label: None,
        object_detection: true,
    };
    match request.image_input().unwrap() {
        ImageInput::ImageBase64(d) => assert_eq!(d, "ZGF0YQ=="),
        _ => panic!("a data request must yield a data input"),
    }
}

#[test]
fn url_and_data_together_are_invalid() {
    let request = NewImageRequest {
        image_url: Some("u".to_string()),
        image_base64: Some("d".to_string()),
        label: None,
        object_detection: false,
    };
    match request.image_input() {
        Err(e) => assert_eq!(e.kind, ErrorKind::InvalidInput),
        Ok(_) => panic!("both inputs at once must be rejected"),
    }
}

#[test]
fn neither_url_nor_data_is_invalid() {
    let request = NewImageRequest {
        image_url: None,
        image_base64: None,
        label: Some("l".to_string()),
        object_detection: false,
    };
    match request.image_input() {
        Err(e) => assert_eq!(e.kind, ErrorKind::InvalidInput),
        Ok(_) => panic!("an empty input must be rejected"),
    }
}
