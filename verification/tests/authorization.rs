use spotify_exporter::auth_flow::{
    authorize_url, find_query_param, ClientCredentials, CodeSlot, REDIRECT_URL,
    REDIRECT_URL_WITHOUT_PROTOCOL,
};
use spotify_exporter::config::Config;
use spotify_exporter::persistence::Persistence;
use spotify_exporter::spotify::get_tokens::Response as Tokens;
use spotify_exporter::spotify::list_user_tracks::{Item, Response, Track};
use spotify_exporter::spotify::{basic_auth_header, extend_with_page, token_request_body};

fn credentials() -> ClientCredentials {
    ClientCredentials { id: "myid".to_string(), secret: "secret".to_string() }
}

#[test]
fn code_arrives_on_the_second_request() {
    let mut slot = CodeSlot::new();
    assert!(!slot.ready());
    slot.observe_request(find_query_param("state=xyz", "code"));
    assert!(!slot.ready());
    assert_eq!(slot.current_code(), None);
    slot.observe_request(find_query_param("state=xyz&code=abc", "code"));
    assert!(slot.ready());
    assert_eq!(slot.current_code(), Some(&"abc".to_string()));
}

#[test]
fn query_parameter_lookup_follows_the_pair_grammar() {
    assert_eq!(find_query_param("code=abc", "code"), Some("abc".to_string()));
    assert_eq!(find_query_param("a=1&code=abc&b=2", "code"), Some("abc".to_string()));
    assert_eq!(find_query_param("code", "code"), Some("".to_string()));
    assert_eq!(find_query_param("code=", "code"), Some("".to_string()));
    assert_eq!(find_query_param("code=a=b", "code"), Some("a".to_string()));
    assert_eq!(find_query_param("code=1&code=2", "code"), Some("1".to_string()));
    assert_eq!(find_query_param("xcode=5", "code"), None);
    assert_eq!(find_query_param("codex=5", "code"), None);
    assert_eq!(find_query_param("", "code"), None);
    assert_eq!(find_query_param("state=xyz", "code"), None);
}

#[test]
fn authorize_url_carries_the_fixed_grant_parameters() {
    let url = authorize_url(&credentials());
    assert_eq!(
        url,
        "https://accounts.spotify.com/authorize?client_id=myid&response_type=code\
         &redirect_uri=http%3A%2F%2Flocalhost%3A3000&scope=user-library-read"
    );
}

#[test]
fn basic_auth_header_encodes_the_joined_credentials() {
    let header = basic_auth_header(&ClientCredentials {
        id: "id".to_string(),
        secret: "secret".to_string(),
    });
    assert_eq!(header, "Basic aWQ6c2VjcmV0");
}

#[test]
fn token_request_body_is_form_encoded() {
    let body = token_request_body("abc");
    assert_eq!(
        body,
        "code=abc&grant_type=authorization_code&redirect_uri=http%3A%2F%2Flocalhost%3A3000"
    );
}

#[test]
fn redirect_url_constants_agree() {
    assert_eq!(REDIRECT_URL, "http://localhost:3000");
    assert_eq!(REDIRECT_URL_WITHOUT_PROTOCOL, "localhost:3000");
    assert!(REDIRECT_URL.ends_with(REDIRECT_URL_WITHOUT_PROTOCOL));
}

#[test]
fn pagination_accumulates_items_and_follows_next() {
    let t = |id: &str| Item {
        track: Track { artists: Vec::new(), id: id.to_string(), name: id.to_string() },
    };
    let mut items = vec![t("one")];
    let next = extend_with_page(
        &mut items,
        Response { next: Some("next-url".to_string()), items: vec![t("two"), t("three")] },
    );
    assert_eq!(next, Some("next-url".to_string()));
    assert_eq!(items, vec![t("one"), t("two"), t("three")]);
    let done = extend_with_page(&mut items, Response { next: None, items: Vec::new() });
    assert_eq!(done, None);
    assert_eq!(items.len(), 3);
}

#[test]
fn token_cache_holds_exactly_the_last_record() {
    let t1 = Tokens {
        access_token: "a1".to_string(),
        refresh_token: "r1".to_string(),
        expires_in: 3600,
    };
    let t2 = Tokens {
        access_token: "a2".to_string(),
        refresh_token: "r2".to_string(),
        expires_in: 7200,
    };
    let mut persistence = Persistence::new("out".to_string());
    assert_eq!(persistence.get_cached_tokens(), None);
    persistence.cache_tokens(&t1);
    persistence.cache_tokens(&t2);
    assert_eq!(persistence.get_cached_tokens(), Some(&t2));
}

#[test]
fn config_carries_credentials_and_output_location() {
    let config = Config::new(credentials(), "out".to_string());
    assert_eq!(config.credentials.id, "myid");
    assert_eq!(config.credentials.secret, "secret");
    assert_eq!(config.output_location, "out");
}
