//! Version detection and dispatch: V0 takes precedence over V1.

use vstd::prelude::*;
use crate::errors::EarsError;
use crate::features::EarsFeatures;
use crate::image::EarsImage;
use crate::parser_v0::{v0_decodes_to, v0_detected_spec, EarsParserV0};
use crate::parser_v1::{v1_decodes_to, v1_detected_spec, EarsParserV1};

verus! {

pub struct EarsParser;

impl EarsParser {
    /// Parses whichever magic-pixel format the image carries, V0 first.
    pub fn parse(image: &EarsImage) -> (r: Result<Option<EarsFeatures>, EarsError>)
        requires
            image.wf(),
        ensures
            !image.in_bounds(0, 32) ==> {
                &&& r matches Ok(o)
                &&& o is None
            },
            image.in_bounds(0, 32) && !v0_detected_spec(*image) && !v1_detected_spec(*image) ==> {
                &&& r matches Ok(o)
                &&& o is None
            },
            image.in_bounds(0, 32) && v0_detected_spec(*image) && image.width_spec() >= 4
                && image.height_spec() >= 35 ==> {
                &&& r matches Ok(o)
                &&& o matches Some(f)
                &&& v0_decodes_to(*image, f)
            },
            image.in_bounds(0, 32) && !v0_detected_spec(*image) && v1_detected_spec(*image)
                && image.width_spec() >= 4 && image.height_spec() >= 36 ==> {
                &&& r matches Ok(o)
                &&& o matches Some(f)
                &&& v1_decodes_to(*image, f)
            },
    {
        if EarsParserV0::detect(image) {
            EarsParserV0::parse(image)
        } else if EarsParserV1::detect(image) {
            EarsParserV1::parse(image)
        } else {
            Ok(None)
        }
    }
}

} // verus!
