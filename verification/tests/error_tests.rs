use bode_response::error::BodeError;

#[test]
fn each_kind_has_its_text() {
    assert_eq!(BodeError::InvalidParameter.describe(), "invalid parameter");
    assert_eq!(BodeError::SingularResponse.describe(), "singular response");
    assert_eq!(BodeError::RenderingFailure.describe(), "rendering failure");
}

#[test]
fn kinds_differ() {
    assert_ne!(BodeError::InvalidParameter, BodeError::SingularResponse);
    assert_ne!(BodeError::SingularResponse, BodeError::RenderingFailure);
    assert_eq!(BodeError::RenderingFailure, BodeError::RenderingFailure);
}
