use extractor::compiler::Compiler;
use extractor::config_util::ConfigUtil;
use extractor::error::{ConfigError, DescriptorError, ReadError};
use extractor::eth_call::EthCall;
use extractor::expression::ExpressionNode;
use extractor::mc_repo_fetcher::{HintEntry, MCRepoFetcher};
use extractor::text::{chars_of, decimal_string, has_prefix, parse_decimal, replace_all, same_text, string_of};

fn word(last: &str) -> String {
    format!("{}{}", "0".repeat(64 - last.len()), last)
}

fn fetcher(vars: &[(&str, &str)], hints: &[(&str, Option<&str>, Option<&str>)]) -> MCRepoFetcher {
    let mut f = MCRepoFetcher::new("org/repo".to_string(), "counter".to_string());
    f.vars = vars.iter().map(|(k, v)| (k.to_string(), v.to_string())).collect();
    f.hints = hints
        .iter()
        .map(|(n, from, to)| HintEntry {
            name: n.to_string(),
            from: from.map(|s| s.to_string()),
            to: to.map(|s| s.to_string()),
        })
        .collect();
    f
}

#[test]
fn the_repository_is_on_github() {
    let f = MCRepoFetcher::new("org/repo".to_string(), "counter".to_string());
    assert_eq!(f.url, "https://github.com/org/repo.git");
    assert_eq!(f.identifier, "org/repo");
    assert_eq!(f.bundle, "counter");
    assert!(f.vars.is_empty() && f.hints.is_empty());
}

#[test]
fn the_accessor_contract_declares_each_base_slot() {
    let f = MCRepoFetcher::new("org/repo".to_string(), "counter".to_string());
    assert_eq!(
        f.gen_dummy_contract(&vec!["GlobalState".to_string(), "ÄB".to_string()]),
        "// SPDX-License-Identifier: MIT\n\
         pragma solidity ^0.8.24;\n\n\
         import { Schema } from \"bundle/counter/storages/Schema.sol\";\n\n\
         contract Dummy {\n\
         \x20   Schema.GlobalState $globalstate;\n\
         \x20   Schema.ÄB $äb;\n\
         }\n"
    );
    assert_eq!(
        f.gen_dummy_contract(&vec![]),
        "// SPDX-License-Identifier: MIT\npragma solidity ^0.8.24;\n\nimport { Schema } from \"bundle/counter/storages/Schema.sol\";\n\ncontract Dummy {\n}\n"
    );
}

#[test]
fn the_variable_defined_last_is_applied_first() {
    let f = fetcher(&[("$p", "Root.proposals"), ("$h", "$p[i].header"), ("$p", "other")], &[]);
    // `$p` occurs: its last definition is applied, and nothing else.
    assert_eq!(f.resolve_user_defined_vars("$p[i].x+$p"), "other[i].x+other");
    // `$h` occurs; the `$p` in its value is left as it is.
    assert_eq!(f.resolve_user_defined_vars("$h"), "$p[i].header");
    assert_eq!(f.resolve_user_defined_vars("$h.$p"), "$h.other");
    assert_eq!(f.resolve_user_defined_vars("plain"), "plain");
    let g = fetcher(&[("", "x"), ("a", "a")], &[]);
    assert_eq!(g.resolve_user_defined_vars("banana"), "banana");
}

#[test]
fn hints_become_constraints() {
    let f = fetcher(
        &[("$u", "Root.users")],
        &[
            ("$u", Some("0"), Some("Root.userCount")),
            ("$u[i].items", Some("head($u)"), None),
            ("Root.users", Some("1"), Some("1")),
        ],
    );
    let constraints = f.load_perf_config().unwrap();
    // The third hint has the class path of the first and is left out.
    assert_eq!(constraints.len(), 2);
    assert_eq!(constraints[0].class_path, vec!["Root".to_string(), "users".to_string()]);
    assert_eq!(constraints[0].cid, ConfigUtil::calc_id(&constraints[0].class_path));
    assert_eq!(constraints[0].from, Some(ExpressionNode::Literal(0)));
    assert_eq!(constraints[0].to, Some(ConfigUtil::parse_config("Root.userCount").unwrap()));
    assert_eq!(
        constraints[1].class_path,
        vec!["Root".to_string(), "users".to_string(), "items".to_string()]
    );
    assert_eq!(constraints[1].from, Some(ConfigUtil::parse_config("head(Root.users)").unwrap()));
    assert_eq!(constraints[1].to, None);
    assert!(fetcher(&[], &[]).load_perf_config().unwrap().is_empty());
}

#[test]
fn faulty_hints_are_rejected() {
    let f = fetcher(&[], &[("a", Some("0"), Some("b+"))]);
    assert_eq!(f.load_perf_config(), Err(ConfigError::MalformedHint));
    let f = fetcher(&[("$x", "1 2")], &[("a", Some("$x"), Some("3"))]);
    assert_eq!(f.load_perf_config(), Err(ConfigError::MalformedHint));
    // `ab.c` and `a.bc` have different class paths and the same id.
    let f = fetcher(&[], &[("ab.c", Some("0"), Some("1")), ("a.bc", Some("0"), Some("1"))]);
    assert_eq!(f.load_perf_config(), Err(ConfigError::Collision));
    // The first fault in the order of the hints is the one reported.
    let f = fetcher(&[], &[("ab.c", None, None), ("a.bc", None, None), ("z", Some("("), None)]);
    assert_eq!(f.load_perf_config(), Err(ConfigError::Collision));
    let f = fetcher(&[], &[("ab.c", None, None), ("z", Some("("), None), ("a.bc", None, None)]);
    assert_eq!(f.load_perf_config(), Err(ConfigError::MalformedHint));
}

#[test]
fn base_slots_in_bytecode() {
    let specifier = "5f1b81565b7f";
    let a = "a1".repeat(32);
    let b = "b2".repeat(32);
    let code = format!("6080{}{}00{}{}5b00", specifier, a, specifier, b);
    assert_eq!(Compiler::get_slots(&code), Ok(vec![a.clone(), b.clone()]));
    // The scan goes by bytes: a specifier at an odd digit is not seen.
    let shifted = format!("0{}{}00", specifier, a);
    assert_eq!(Compiler::get_slots(&shifted), Err(DescriptorError::NoBaseSlots));
    // A slot that is cut short ends the scan.
    let cut = format!("{}{}{}{}", specifier, a, specifier, &b[..62]);
    assert_eq!(Compiler::get_slots(&cut), Ok(vec![a.clone()]));
    assert_eq!(Compiler::get_slots(""), Err(DescriptorError::NoBaseSlots));
    assert_eq!(Compiler::get_slots("60806040"), Err(DescriptorError::NoBaseSlots));
    assert_eq!(Compiler::get_slots(specifier), Err(DescriptorError::NoBaseSlots));
    // Digits of a slot are not searched for a specifier.
    let inner = format!("{}{}{}", specifier, specifier, "00".repeat(31));
    assert_eq!(
        Compiler::get_slots(&inner),
        Ok(vec![format!("{}{}", specifier, "00".repeat(26))])
    );
    let c = Compiler::new("solc".to_string(), "counter".to_string());
    assert_eq!((c.solc_path.as_str(), c.bundle.as_str()), ("solc", "counter"));
}

#[test]
fn the_call_carries_the_slots_in_order() {
    let batch = vec![(3, word("03")), (1, word("01")), (2, word("02"))];
    assert_eq!(EthCall::request_data(&batch), format!("{}{}{}", word("03"), word("01"), word("02")));
    assert_eq!(EthCall::request_data(&vec![]), "");
}

#[test]
fn the_response_is_sliced_in_the_same_order() {
    let batch = vec![(3, word("03")), (1, word("01"))];
    let response = format!("{}{}", word("aa"), word("bb"));
    let expected = Ok(vec![(3, word("aa")), (1, word("bb"))]);
    assert_eq!(EthCall::get_values_by_slots(&batch, &response), expected);
    assert_eq!(EthCall::get_values_by_slots(&batch, &format!("0x{}", response)), expected);
    assert_eq!(EthCall::get_values_by_slots(&vec![], ""), Ok(vec![]));
    assert_eq!(EthCall::get_values_by_slots(&vec![], "0x"), Ok(vec![]));
    for bad in [
        word("aa"),
        format!("{}{}{}", word("aa"), word("bb"), word("cc")),
        format!("{}{}", word("aa"), &word("bb")[..63]),
        format!("{}{}", word("AA"), word("bb")),
        format!("0X{}", response),
        format!("{}{}", word("aa"), word("bb")).replace("b", "x"),
        String::new(),
    ] {
        assert_eq!(EthCall::get_values_by_slots(&batch, &bad), Err(ReadError::Malformed), "{:?}", bad);
    }
}

#[test]
fn decimal_numerals() {
    assert_eq!(decimal_string(0), "0");
    assert_eq!(decimal_string(7), "7");
    assert_eq!(decimal_string(10), "10");
    assert_eq!(decimal_string(1234567890), "1234567890");
    assert_eq!(decimal_string(u64::MAX), "18446744073709551615");
    assert_eq!(parse_decimal("0"), Some(0));
    assert_eq!(parse_decimal("007"), Some(7));
    assert_eq!(parse_decimal("18446744073709551615"), Some(u64::MAX));
    assert_eq!(parse_decimal("18446744073709551616"), None);
    assert_eq!(parse_decimal("99999999999999999999999"), None);
    assert_eq!(parse_decimal(""), None);
    assert_eq!(parse_decimal("-1"), None);
    assert_eq!(parse_decimal("1 "), None);
    assert_eq!(parse_decimal("१"), None);
}

#[test]
fn text_helpers() {
    assert_eq!(replace_all("a.b.c", ".", "::"), "a::b::c");
    assert_eq!(replace_all("aaaa", "aa", "b"), "bb");
    assert_eq!(replace_all("aaa", "aa", "b"), "ba");
    assert_eq!(replace_all("abc", "", "x"), "abc");
    assert_eq!(replace_all("abc", "abcd", "x"), "abc");
    assert_eq!(replace_all("", "a", "x"), "");
    assert_eq!(replace_all("xäx", "ä", ""), "xx");
    assert_eq!(chars_of("aé"), vec!['a', 'é']);
    assert_eq!(string_of(&vec!['a', 'é']), "aé");
    assert!(has_prefix(&chars_of("t_array(x)"), "t_array("));
    assert!(!has_prefix(&chars_of("t_arr"), "t_array("));
    assert!(has_prefix(&chars_of("abc"), ""));
    assert!(same_text("abc", "abc"));
    assert!(!same_text("abc", "abd"));
    assert!(!same_text("abc", "ab"));
}
