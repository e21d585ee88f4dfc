use loaded::traffic::{TrafficPattern, TrafficState, TrafficStateMachine};
use loaded::uri::UriProvider;

#[test]
fn put_traffic_pattern() {
    let mut expected_uri_provider =
        UriProvider::new(String::new(), String::new(), String::new(), 0, 1, 1);
    let mut machine = TrafficStateMachine::new(TrafficPattern::Put, expected_uri_provider.clone());

    for _ in 0..1000 {
        let next_uri = expected_uri_provider.next();
        assert!(matches!(machine.next(), TrafficState::Put { uri } if uri == next_uri));
    }
}

#[test]
fn get_traffic_pattern() {
    let mut expected_uri_provider =
        UriProvider::new(String::new(), String::new(), String::new(), 0, 1, 1);
    let mut machine = TrafficStateMachine::new(TrafficPattern::Get, expected_uri_provider.clone());

    for _ in 0..1000 {
        let next_uri = expected_uri_provider.next();
        assert!(matches!(machine.next(), TrafficState::Get { uri } if uri == next_uri));
    }
}

#[test]
fn both_traffic_pattern() {
    let mut expected_uri_provider =
        UriProvider::new(String::new(), String::new(), String::new(), 0, 1, 1);
    let mut machine = TrafficStateMachine::new(TrafficPattern::Both, expected_uri_provider.clone());

    let mut last_state = None;
    for _ in 0..1000 {
        let next_state = machine.next();
        match last_state {
            None => {
                let next_uri = expected_uri_provider.next();
                assert!(matches!(next_state.clone(), TrafficState::Put { uri } if uri == next_uri));
            }
            Some(s) => match s {
                TrafficState::Put { uri: last_uri } => {
                    assert!(
                        matches!(next_state.clone(), TrafficState::Get { uri } if uri == last_uri)
                    );
                }
                TrafficState::Get { .. } => {
                    let next_uri = expected_uri_provider.next();
                    assert!(
                        matches!(next_state.clone(), TrafficState::Put { uri } if uri == next_uri)
                    );
                }
            },
        }

        last_state = Some(next_state);
    }
}
