//! User-facing auxiliary types.

use grekko::Claims;
use grekko::UserFail;

#[test]
fn test_user_fail_message() {
    let fail = UserFail::new("abc123".to_string());
    assert_eq!(fail.message(), "Unable to find a user with id `abc123`");
}

#[test]
fn test_claims_fields() {
    let claims = Claims { uid: "u-1".to_string(), sub: "subject".to_string() };
    assert_eq!(claims.uid, "u-1");
    assert_eq!(claims.sub, "subject");
}
