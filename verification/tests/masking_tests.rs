use template_miner::masking::AbstractMaskingInstruction;
use template_miner::LogMasker;
use template_miner::MaskingInstruction;
use template_miner::MaskingInstructionConfig;

fn rule(pattern: &str, mask_with: &str) -> MaskingInstruction {
    MaskingInstruction::new(&MaskingInstructionConfig {
        pattern: pattern.to_string(),
        mask_with: mask_with.to_string(),
    })
    .unwrap()
}

#[test]
fn test_masking() {
    let instructions = vec![rule(r"\d+", "NUM")];
    let masker = LogMasker::new(instructions, "<", ">");
    let masked = masker.mask("User 123 logged in");
    assert_eq!(masked, "User <NUM> logged in");
}

#[test]
fn test_id_masking() {
    let instructions = vec![rule(r"(?:[0-9a-f]{2,}:){3,}[0-9a-f]{2,}", "ID")];
    let masker = LogMasker::new(instructions, "<", ">");
    let masked = masker.mask("device aa:bb:cc:dd:ee connected");
    assert_eq!(masked, "device <ID> connected");
}

#[test]
fn test_ip_masking() {
    let instructions = vec![rule(r"(\d{1,3}(\.\d{1,3}){3})", "IP")];
    let masker = LogMasker::new(instructions, "<", ">");
    let masked = masker.mask("connect 10.1.1.0 success");
    assert_eq!(masked, "connect <IP> success");
}

#[test]
fn test_host_masking() {
    let instructions = vec![rule(r"([A-Za-z0-9-]+(\.[A-Za-z0-9-]+)+)", "HOST")];
    let masker = LogMasker::new(instructions, "<", ">");
    let masked = masker.mask("connect server.example.com now");
    assert_eq!(masked, "connect <HOST> now");
}

#[test]
fn test_seq_lower_masking() {
    let instructions = vec![rule(r"(([0-9a-f]{6,} ?){2,}([0-9a-f]{6,}))", "SEQ")];
    let masker = LogMasker::new(instructions, "<", ">");
    let masked = masker.mask("seq abcdef 123456 fedcba done");
    assert_eq!(masked, "seq <SEQ> done");
}

#[test]
fn test_seq_upper_masking() {
    let instructions = vec![rule(r"(([0-9A-F]{4} ?){3,}([0-9A-F]{4}))", "SEQ")];
    let masker = LogMasker::new(instructions, "<", ">");
    let masked = masker.mask("seq ABCD 0123 4567 89AB done");
    assert_eq!(masked, "seq <SEQ> done");
}

#[test]
fn test_hex_masking() {
    let instructions = vec![rule(r"(0x[a-fA-F0-9]+)", "HEX")];
    let masker = LogMasker::new(instructions, "<", ">");
    let masked = masker.mask("value 0xdeadbeef found");
    assert_eq!(masked, "value <HEX> found");
}

#[test]
fn test_num_masking() {
    let instructions = vec![rule(r"([-+]?\d+)", "NUM")];
    let masker = LogMasker::new(instructions, "<", ">");
    let masked = masker.mask("value -42 found");
    assert_eq!(masked, "value <NUM> found");
}

#[test]
fn test_cmd_masking() {
    let instructions = vec![rule(r#"(executed cmd )(".+?")"#, "CMD")];
    let masker = LogMasker::new(instructions, "<", ">");
    let masked = masker.mask(r#"executed cmd "rm -rf /""#);
    assert_eq!(masked, "<CMD>");
}

#[test]
fn test_str_single_masking() {
    let instructions = vec![rule(r"'[^']*'", "STR")];
    let masker = LogMasker::new(instructions, "<", ">");
    let masked = masker.mask("user 'john' logged in");
    assert_eq!(masked, "user <STR> logged in");
}

#[test]
fn test_str_double_masking() {
    let instructions = vec![rule(r#""[^"]*""#, "STR")];
    let masker = LogMasker::new(instructions, "<", ">");
    let masked = masker.mask(r#"user "john" logged in"#);
    assert_eq!(masked, "user <STR> logged in");
}

#[test]
fn test_masking_idempotent() {
    // The default rule sets never rewrite their own placeholders: applying
    // the masker twice gives the same line as applying it once.
    let instructions = vec![rule(r"\d+", "NUM")];
    let masker = LogMasker::new(instructions, "<", ">");
    let once = masker.mask("User 123 logged in");
    let twice = masker.mask(&once);
    assert_eq!(once, twice);
}

#[test]
fn test_rule_order_matters() {
    // Later rules see the output of earlier ones: the second rule no longer
    // finds digits once the first has swallowed them.
    let instructions = vec![rule(r"\d+\.\d+", "FLOAT"), rule(r"\d+", "NUM")];
    let masker = LogMasker::new(instructions, "<", ">");
    assert_eq!(masker.mask("pi is 3.14 and e is 2"), "pi is <FLOAT> and e is <NUM>");
}

#[test]
fn test_invalid_regex_is_rejected() {
    let bad = MaskingInstruction::new(&MaskingInstructionConfig {
        pattern: "(".to_string(),
        mask_with: "BAD".to_string(),
    });
    assert!(bad.is_none());
}

#[test]
fn test_mask_names_and_rules_by_name() {
    let instructions = vec![rule(r"\d+", "NUM"), rule(r"0x[0-9a-f]+", "HEX"), rule(r"-\d+", "NUM")];
    let masker = LogMasker::new(instructions, "<", ">");
    let names = masker.mask_names();
    assert_eq!(names, vec!["NUM".to_string(), "HEX".to_string()]);
    let nums = masker.instructions_by_mask_name("NUM");
    assert_eq!(nums.len(), 2);
    assert_eq!(nums[0].pattern(), r"\d+");
    assert_eq!(nums[1].pattern(), r"-\d+");
}
