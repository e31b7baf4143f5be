use xnote_core::vcp::{
    build_admin_api_endpoint, build_models_endpoint, infer_vcp_ws_endpoint,
    normalize_vcp_admin_endpoint, normalize_vcp_chat_endpoint,
};

#[test]
fn normalize_vcp_chat_endpoint_accepts_plain_host() {
    assert_eq!(
        normalize_vcp_chat_endpoint("127.0.0.1:6005"),
        "http://127.0.0.1:6005/v1/chat/completions"
    );
}

#[test]
fn normalize_vcp_admin_endpoint_strips_known_paths() {
    assert_eq!(
        normalize_vcp_admin_endpoint("http://127.0.0.1:6005/v1/chat/completions"),
        "http://127.0.0.1:6005"
    );
    assert_eq!(
        normalize_vcp_admin_endpoint("http://127.0.0.1:6005/admin_api/plugins"),
        "http://127.0.0.1:6005"
    );
}

#[test]
fn infer_ws_endpoint_from_admin_http() {
    assert_eq!(
        infer_vcp_ws_endpoint("http://127.0.0.1:6005"),
        "ws://127.0.0.1:6005"
    );
    assert_eq!(
        infer_vcp_ws_endpoint("https://example.com"),
        "wss://example.com"
    );
}

#[test]
fn build_models_endpoint_rewrites_chat_urls() {
    assert_eq!(
        build_models_endpoint("http://127.0.0.1:6005/v1/chat/completions"),
        "http://127.0.0.1:6005/v1/models"
    );
    assert_eq!(
        build_models_endpoint("http://127.0.0.1:6005/v1/chatvcp/completions"),
        "http://127.0.0.1:6005/v1/models"
    );
}

#[test]
fn build_admin_api_endpoint_normalizes_paths() {
    assert_eq!(
        build_admin_api_endpoint("http://127.0.0.1:6005", "/plugins"),
        "http://127.0.0.1:6005/admin_api/plugins"
    );
    assert_eq!(
        build_admin_api_endpoint("http://127.0.0.1:6005", "/admin_api/agents"),
        "http://127.0.0.1:6005/admin_api/agents"
    );
}
