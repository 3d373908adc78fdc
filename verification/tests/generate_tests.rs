use ferrite::generate::{eos_token_id, Action, Generation};
use ferrite::gguf::{parse, GGUF_MAGIC};

#[test]
fn the_prompt_is_passed_first() {
    let mut g = Generation::new(&[5, 6], 1, None);
    assert_eq!(g.action(), Action::Feed(0));
    g.feed();
    assert_eq!(g.action(), Action::Feed(1));
    g.feed();
    assert_eq!(g.action(), Action::Choose);
    assert_eq!(g.accept(9), Some(9));
    assert_eq!(g.ids(), &[5, 6, 9]);
    // the last token is passed too
    assert_eq!(g.action(), Action::Feed(2));
    g.feed();
    assert_eq!(g.action(), Action::Stop);
}

#[test]
fn the_end_token_ends_the_text() {
    let mut g = Generation::new(&[5], 10, Some(2));
    g.feed();
    assert_eq!(g.accept(3), Some(3));
    g.feed();
    assert_eq!(g.accept(2), None);
    assert_eq!(g.action(), Action::Stop);
    assert_eq!(g.ids(), &[5, 3]);
}

#[test]
fn without_a_prompt_a_token_is_chosen_at_once() {
    let g = Generation::new(&[], 1, None);
    assert_eq!(g.action(), Action::Choose);
    let none = Generation::new(&[], 0, None);
    assert_eq!(none.action(), Action::Stop);
}

#[test]
fn a_generation_is_bounded() {
    let mut g = Generation::new(&[1, 2, 3], 4, Some(0));
    let mut events = 0;
    loop {
        match g.action() {
            Action::Feed(pos) => {
                assert!(pos < g.ids().len());
                g.feed();
            }
            Action::Choose => {
                assert_eq!(g.accept(7), Some(7));
            }
            Action::Stop => break,
        }
        events += 1;
    }
    assert_eq!(events, 3 + 2 * 4);
    assert_eq!(g.ids(), &[1, 2, 3, 7, 7, 7, 7]);
}

#[test]
fn the_end_token_of_a_file() {
    let mut b = Vec::new();
    b.extend_from_slice(&GGUF_MAGIC.to_le_bytes());
    b.extend_from_slice(&3u32.to_le_bytes());
    b.extend_from_slice(&0u64.to_le_bytes());
    let mut none = b.clone();
    none.extend_from_slice(&0u64.to_le_bytes());
    assert_eq!(eos_token_id(&parse(&none).unwrap()), None);
    b.extend_from_slice(&1u64.to_le_bytes());
    let key = "tokenizer.ggml.eos_token_id";
    b.extend_from_slice(&(key.len() as u64).to_le_bytes());
    b.extend_from_slice(key.as_bytes());
    b.extend_from_slice(&4u32.to_le_bytes());
    b.extend_from_slice(&151645u32.to_le_bytes());
    assert_eq!(eos_token_id(&parse(&b).unwrap()), Some(151645));
}
