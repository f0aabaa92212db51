//! Caller-facing input shapes: how an image is supplied, and the request
//! bodies and query parameters of the two endpoints, with their validation.

use vstd::prelude::*;
use crate::error::ErrorKind;
use crate::error::ServerError;
use crate::query::TagFilter;
use crate::text::split_commas;
use crate::text::split_commas_spec;

verus! {

/// How the caller supplies an image: either a ready URL, or the image's
/// base64-encoded data, which still has to be stored externally before a
/// final URL exists.
pub enum ImageInput {
    ImageUrl(String),
    ImageBase64(String),
}

/// The body of a request to create an image. The caller must supply an
/// image URL or base64-encoded image data — exactly one of the two. A
/// label is optional (one is synthesized from the tags otherwise), and
/// `object_detection` asks for tags to be detected by the external
/// detection collaborator.
pub struct NewImageRequest {
    pub image_url: Option<String>,
    pub image_base64: Option<String>,
    pub label: Option<String>,
    pub object_detection: bool,
}

impl NewImageRequest {
    /// Validates the URL-or-data choice: exactly one of `image_url` and
    /// `image_base64` must be present, and the invalid-input error says so
    /// otherwise.
    pub fn image_input(&self) -> (r: Result<ImageInput, ServerError>)
        ensures
            match r {
                Ok(input) => match input {
                    ImageInput::ImageUrl(u) => {
                        &&& self.image_url matches Some(x) && u@ == x@
                        &&& self.image_base64 is None
                    },
                    ImageInput::ImageBase64(d) => {
                        &&& self.image_base64 matches Some(x) && d@ == x@
                        &&& self.image_url is None
                    },
                },
                Err(e) => {
                    &&& (self.image_url is Some) == (self.image_base64 is Some)
                    &&& e.kind == ErrorKind::InvalidInput
                },
            },
    {
        match (&self.image_url, &self.image_base64) {
            (Some(url), None) => Ok(ImageInput::ImageUrl(url.clone())),
            (None, Some(data)) => Ok(ImageInput::ImageBase64(data.clone())),
            _ => Err(
                ServerError::new(
                    ErrorKind::InvalidInput,
                    String::from_str("expected an image URL or base64 encoded image (not both)"),
                ),
            ),
        }
    }
}

/// The query parameters of a catalog listing. `objects` requests images
/// carrying all objects in a comma-separated list; `some_objects` requests
/// images carrying at least one of them. Neither is necessary — with
/// neither, every image is returned — but giving both is rejected.
pub struct GetImagesQueryParams {
    pub objects: Option<String>,
    pub some_objects: Option<String>,
}

/// Turns the listing parameters into a tag-set predicate, splitting the
/// chosen comma-separated list into names; both lists at once are an
/// invalid input.
pub fn tag_filter_from_params(params: &GetImagesQueryParams) -> (r: Result<TagFilter, ServerError>)
    ensures
        match r {
            Ok(filter) => match filter {
                TagFilter::NoFilter => {
                    &&& params.objects is None
                    &&& params.some_objects is None
                },
                TagFilter::ContainsSomeTags(names) => {
                    &&& params.some_objects matches Some(s) && names.deep_view()
                        == split_commas_spec(s@)
                    &&& params.objects is None
                },
                TagFilter::ContainsAllTags(names) => {
                    &&& params.objects matches Some(s) && names.deep_view() == split_commas_spec(
                        s@,
                    )
                    &&& params.some_objects is None
                },
            },
            Err(e) => {
                &&& params.objects is Some
                &&& params.some_objects is Some
                &&& e.kind == ErrorKind::InvalidInput
            },
        },
{
    match (&params.objects, &params.some_objects) {
        (Some(objects_list), None) => Ok(
            TagFilter::ContainsAllTags(split_commas(objects_list.as_str())),
        ),
        (None, Some(objects_list)) => Ok(
            TagFilter::ContainsSomeTags(split_commas(objects_list.as_str())),
        ),
        (None, None) => Ok(TagFilter::NoFilter),
        (Some(_), Some(_)) => Err(
            ServerError::new(
                ErrorKind::InvalidInput,
                String::from_str("cannot specify both an objects list and a some_objects list"),
            ),
        ),
    }
}

} // verus!