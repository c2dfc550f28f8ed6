//! Tests of the error kinds and their conversions and messages.

use harplay::errors::AppError;
use harplay::req_resp::IntoRequestError;
use harplay::req_resp::ResponderError;

#[test]
fn test_responder_app_error_conversions() {
    assert!(matches!(
        AppError::from(ResponderError::RequestNotFound),
        AppError::RequestLookup
    ));
    assert!(matches!(
        AppError::from(ResponderError::ResponseNotFound),
        AppError::ResponseLookup
    ));
}

#[test]
fn app_error_kinds_stay_distinguishable() {
    let errors = [
        AppError::IncomingUrl {
            source: IntoRequestError::NonHttpScheme,
        },
        AppError::IncomingUrl {
            source: IntoRequestError::ParsingUrl,
        },
        AppError::IncomingUrl {
            source: IntoRequestError::ReplacingHost,
        },
        AppError::IncomingUrl {
            source: IntoRequestError::ReplacingScheme,
        },
        AppError::DatabaseLock,
        AppError::RequestLookup,
        AppError::ResponseLookup,
    ];
    for (i, a) in errors.iter().enumerate() {
        for (j, b) in errors.iter().enumerate() {
            assert_eq!(a == b, i == j);
        }
    }
}

#[test]
fn error_messages_name_the_failure() {
    assert_eq!(
        IntoRequestError::NonHttpScheme.message(),
        "Scheme is not HTTP/HTTPS"
    );
    assert_eq!(
        IntoRequestError::ParsingUrl.message(),
        "Error parsing URL from HTTP request"
    );
    assert_eq!(
        IntoRequestError::ReplacingHost.message(),
        "Error normalizing URL's host"
    );
    assert_eq!(
        IntoRequestError::ReplacingScheme.message(),
        "Error normalizing URL's scheme"
    );
    assert_eq!(ResponderError::RequestNotFound.message(), "Request not found");
    assert_eq!(
        ResponderError::ResponseNotFound.message(),
        "Response not found"
    );
}
