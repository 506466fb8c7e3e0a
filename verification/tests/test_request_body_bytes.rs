use bytes::Bytes;

use vyro_native::http::request::IncomingRequest;
use vyro_native::strmap::StringMap;

#[test]
fn incoming_request_body_uses_ref_counted_bytes() {
    let shared = Bytes::from_static(b"payload");
    let request = IncomingRequest {
        headers: StringMap::new(),
        query: StringMap::new(),
        path_params: StringMap::new(),
        body: shared.clone(),
    };

    assert_eq!(request.body, shared);
    assert_eq!(request.body.as_ptr(), shared.as_ptr());
}
