use optchain::api::{parse_u64, route, ApiAction, ApiRejection, IntError};

#[test]
fn parse_u64_reads_like_from_str() {
    assert_eq!(parse_u64("0"), Ok(0));
    assert_eq!(parse_u64("+42"), Ok(42));
    assert_eq!(parse_u64("18446744073709551615"), Ok(u64::MAX));
    assert_eq!(parse_u64("18446744073709551616"), Err(IntError::PosOverflow));
    assert_eq!(parse_u64(""), Err(IntError::Empty));
    assert_eq!(parse_u64("+"), Err(IntError::InvalidDigit));
    assert_eq!(parse_u64("-1"), Err(IntError::InvalidDigit));
    assert_eq!(parse_u64("12a"), Err(IntError::InvalidDigit));
    for s in ["7", "+7", "", "x", "99999999999999999999", "123456"] {
        let ours = parse_u64(s);
        let std = s.parse::<u64>();
        assert_eq!(ours.is_ok(), std.is_ok());
        if let (Ok(a), Ok(b)) = (ours, std) {
            assert_eq!(a, b);
        }
    }
}

#[test]
fn routes_of_the_http_interface() {
    assert_eq!(route("/miner/start", Some("100")), ApiAction::MinerStart(100));
    assert_eq!(route("/miner/start", None), ApiAction::Reject(ApiRejection::MissingLambda));
    assert_eq!(
        route("/miner/start", Some("fast")),
        ApiAction::Reject(ApiRejection::BadLambda(IntError::InvalidDigit))
    );
    assert_eq!(route("/miner/end", None), ApiAction::MinerEnd);
    assert_eq!(route("/network/ping", Some("1")), ApiAction::NetworkPing);
    assert_eq!(route("/blockchain/log", None), ApiAction::Reject(ApiRejection::NotFound));
}
