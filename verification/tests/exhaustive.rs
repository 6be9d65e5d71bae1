use lighter::{lighter, Fired, MatchKind, Pattern, Rule, Selection, Source};

fn strings(alphabet: &[u8], max_len: usize) -> Vec<Vec<u8>> {
    let mut all = vec![Vec::new()];
    let mut last = vec![Vec::new()];
    for _ in 0..max_len {
        let mut next = Vec::new();
        for s in &last {
            for &c in alphabet {
                let mut t = s.clone();
                t.push(c);
                next.push(t);
            }
        }
        all.extend(next.iter().cloned());
        last = next;
    }
    all
}

/// What the rules select for `input`, read off the list of entries.
fn expected(
    entries: &[(Vec<u8>, MatchKind, usize)],
    fallback: usize,
    binder: bool,
    input: &[u8],
) -> Selection {
    let find = |bytes: &[u8], kind: MatchKind| {
        entries.iter().find(|e| e.0 == bytes && e.1 == kind).map(|e| e.2)
    };
    let by_fallback = |claimed: Vec<u8>| Selection {
        action: fallback,
        fired: Fired::Fallback,
        consumed: claimed.len(),
        bound: if binder { Some(claimed) } else { None },
    };
    let mut path: Vec<u8> = Vec::new();
    for &byte in input {
        if let Some(action) = find(&path, MatchKind::Prefix) {
            return Selection {
                action,
                fired: Fired::OnContinue,
                consumed: path.len(),
                bound: None,
            };
        }
        path.push(byte);
        if !entries.iter().any(|e| e.0.starts_with(&path)) {
            return by_fallback(path);
        }
    }
    match find(&path, MatchKind::Exact) {
        Some(action) => Selection {
            action,
            fired: Fired::OnEnd,
            consumed: path.len(),
            bound: None,
        },
        None => by_fallback(path),
    }
}

fn compare(keys: &[(Vec<u8>, MatchKind)], chosen: u32, binder: bool, inputs: &[Vec<u8>]) {
    let mut entries = Vec::new();
    let mut rules = Vec::new();
    for (i, key) in keys.iter().enumerate() {
        if chosen & (1 << i) != 0 {
            let literal = Pattern::Literal(key.0.clone());
            let pattern = match key.1 {
                MatchKind::Exact => literal,
                MatchKind::Prefix => Pattern::Prefix(Box::new(literal)),
            };
            entries.push((key.0.clone(), key.1, rules.len()));
            rules.push(Rule { pattern, action: () });
        }
    }
    let fallback = rules.len();
    let pattern = if binder { Pattern::Binder("rest".to_string()) } else { Pattern::Wildcard };
    rules.push(Rule { pattern, action: () });
    let matcher = lighter(rules).unwrap();
    for input in inputs {
        let want = expected(&entries, fallback, binder, input);
        assert_eq!(matcher.run_bytes(input), want, "rules {:?}, input {:?}", entries, input);
        let mut source = Source::new(input.iter().map(|b| Ok::<u8, ()>(*b)));
        let consumed = want.consumed;
        assert_eq!(matcher.run(&mut source), Ok(want));
        let mut left = Vec::new();
        while let Some(Ok(byte)) = source.pull() {
            left.push(byte);
        }
        assert_eq!(left, input[consumed..].to_vec(), "rules {:?}, input {:?}", entries, input);
    }
}

#[test]
fn every_small_rule_set_matches_as_its_entries_say() {
    let mut keys = Vec::new();
    for bytes in strings(b"ab", 2) {
        keys.push((bytes.clone(), MatchKind::Exact));
        keys.push((bytes, MatchKind::Prefix));
    }
    assert_eq!(keys.len(), 14);
    let inputs = strings(b"ab", 3);
    for chosen in 0..(1u32 << keys.len()) {
        compare(&keys, chosen, chosen % 2 == 0, &inputs);
    }
}

#[test]
fn longer_rule_sets_match_as_their_entries_say() {
    let mut keys = Vec::new();
    for bytes in strings(b"xyz", 3) {
        keys.push((bytes.clone(), MatchKind::Exact));
        keys.push((bytes, MatchKind::Prefix));
    }
    let inputs = strings(b"xyz", 4);
    let mut state: u64 = 0x2545f4914f6cdd1d;
    for round in 0..300 {
        let mut picked = Vec::new();
        for key in &keys {
            state ^= state << 13;
            state ^= state >> 7;
            state ^= state << 17;
            if state % 8 == 0 {
                picked.push(key.clone());
            }
        }
        let all = (1u32 << picked.len().min(31)) - 1;
        picked.truncate(31);
        compare(&picked, all, round % 2 == 0, &inputs);
    }
}
