use rusty_store::filter::{custom_filter, FilterCondition, Player};

fn players() -> Vec<Player> {
    vec![
        Player { name: "Neuer".to_string(), position: "GK".to_string() },
        Player { name: "Ramos".to_string(), position: "CB".to_string() },
        Player { name: "Haaland".to_string(), position: "CF".to_string() },
        Player { name: "Kane".to_string(), position: "CF".to_string() },
    ]
}

#[test]
fn filter_keeps_exactly_the_matches_in_order() {
    let all = players();
    let filter = FilterCondition { condition: |p: &Player| p.position == "CF" };
    let result = custom_filter(&all, &filter);
    assert_eq!(result.len(), 2);
    assert_eq!(result[0].name, "Haaland");
    assert_eq!(result[1].name, "Kane");
}

#[test]
fn filter_with_no_matches_is_empty() {
    let all = players();
    let filter = FilterCondition { condition: |p: &Player| p.position == "AMF" };
    let result = custom_filter(&all, &filter);
    assert!(result.is_empty());
}

#[test]
fn filter_that_accepts_everything_copies_the_slice() {
    let all = players();
    let filter = FilterCondition { condition: |_p: &Player| true };
    let result = custom_filter(&all, &filter);
    assert_eq!(result.len(), all.len());
    for (x, y) in result.iter().zip(all.iter()) {
        assert_eq!(x.name, y.name);
        assert_eq!(x.position, y.position);
    }
}

#[test]
fn is_match_applies_the_wrapped_predicate() {
    let filter = FilterCondition { condition: |p: &Player| p.name.len() > 4 };
    let long = Player { name: "Haaland".to_string(), position: "CF".to_string() };
    let short = Player { name: "Kane".to_string(), position: "CF".to_string() };
    assert!(filter.is_match(&long));
    assert!(!filter.is_match(&short));
}
