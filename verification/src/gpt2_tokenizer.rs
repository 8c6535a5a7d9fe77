//! GPT-2's byte-level BPE tokenizer.

use vstd::prelude::*;
use vstd::string::*;
use vstd::hash_map::StringHashMap;
use crate::error::MiniInferError;
use crate::text::{append_decimal, chars_of, decimal, line_scan, push_char, split_lines_of, split_lines,
    split_whitespace, split_ws, starts_with, string_from_chars, trim, trim_ws};
use crate::bpe::{apply_merges, bpe, strings_view, lemma_bpe_preserves_text};
use crate::merges::MergeTable;
use crate::byte_level::{byte_level_decode, byte_level_encode, clean_decoded_tokens,
    encode_bytes_to_unicode, lemma_byte_level_round_trip};
use vstd::utf8::encode_utf8;
use crate::tokenizer::{Tokenizer, is_first_out_of_range_id};

verus! {

broadcast use vstd::hash_map::group_hash_map_axioms;

/// The pattern GPT-2 uses to cut text into words before merging.
pub const GPT2_PRE_TOKEN_PATTERN: &'static str =
    r"'s|'t|'re|'ve|'m|'ll|'d| ?\p{L}+| ?\p{N}+| ?[^\s\p{L}\p{N}]+|\s+(?!\S)|\s+";

/// The successive non-overlapping matches of `pattern` in `text`, as
/// `fancy_regex` finds them; `None` when the pattern does not compile or
/// a search fails.
pub uninterp spec fn regex_matches(pattern: Seq<char>, text: Seq<char>) -> Option<Seq<Seq<char>>>;

/// Compiles `pattern` with `fancy_regex::Regex::new` and collects the texts
/// of `Regex::find_iter` over `text`. The result is named by
/// `regex_matches`; nothing more is said of it.
#[verifier::external_body]
fn regex_find_all(pattern: &str, text: &str) -> (r: Option<Vec<String>>)
    ensures
        match regex_matches(pattern@, text@) {
            Some(ws) => r matches Some(v) && strings_view(v@) == ws,
            None => r is None,
        },
{
    let re = fancy_regex::Regex::new(pattern).ok()?;
    let mut out = Vec::new();
    for found in re.find_iter(text) {
        match found {
            Ok(m) => out.push(m.as_str().to_string()),
            Err(_) => return None,
        }
    }
    Some(out)
}

/// The vocabulary a JSON object of token ids gives, as `serde_json` reads
/// it into a map from strings to `usize`; `None` when the text is not such
/// an object.
pub uninterp spec fn vocab_json(text: Seq<char>) -> Option<Map<Seq<char>, usize>>;

/// Parses `text` with `serde_json::from_str` into a
/// `HashMap<String, usize>` and lists its entries. The map is named by
/// `vocab_json`: every entry is in it, every key of it is listed once, and
/// there are as many entries as keys. The order of the entries is that of a
/// hash-map walk, and the text of a parse error is serde's; neither is said.
#[verifier::external_body]
fn parse_vocab_json(text: &str) -> (r: Result<Vec<(String, usize)>, String>)
    ensures
        match vocab_json(text@) {
            None => r is Err,
            Some(m) => r matches Ok(v) && v@.len() == m.len() && (forall|i: int|
                0 <= i < v@.len() ==> #[trigger] m.contains_key(v@[i].0@) && m[v@[i].0@] == v@[i].1)
                && (forall|i: int, j: int| 0 <= i < j < v@.len() ==> #[trigger] v@[i].0@ != #[trigger] v@[j].0@)
                && (forall|t: Seq<char>| #[trigger] m.contains_key(t) ==> exists|i: int| 0 <= i < v@.len() && v@[i].0@ == t),
        },
{
    match serde_json::from_str::<std::collections::HashMap<String, usize>>(text) {
        Ok(map) => Ok(map.into_iter().collect()),
        Err(error) => Err(error.to_string()),
    }
}

/// Every key of `m` is a token with text, and every id below the size of
/// the vocabulary belongs to one of them.
pub open spec fn vocab_covers_ids(m: Map<Seq<char>, usize>) -> bool {
    &&& forall|t: Seq<char>| #[trigger] m.contains_key(t) ==> t.len() > 0
    &&& forall|i: int| 0 <= i < m.len() ==> #[trigger] id_has_token(m, i)
}

/// Some key of `m` has id `i`.
pub open spec fn id_has_token(m: Map<Seq<char>, usize>, i: int) -> bool {
    exists|t: Seq<char>| #[trigger] m.contains_key(t) && m[t] == i
}

/// Cuts text into the words GPT-2 merges separately: the matches of the
/// GPT-2 pre-tokenization pattern, in order.
pub fn pre_tokenize_text(text: &str) -> (r: Vec<String>)
    requires
        regex_matches(GPT2_PRE_TOKEN_PATTERN@, text@) is Some,
    ensures
        strings_view(r@) == regex_matches(GPT2_PRE_TOKEN_PATTERN@, text@)->0,
{
    match regex_find_all(GPT2_PRE_TOKEN_PATTERN, text) {
        Some(words) => words,
        None => {
            proof {
                assert(false);
            }
            Vec::new()
        },
    }
}

/// The words of `text`, or `None` when the pattern search fails.
pub fn checked_pre_tokenize_text(text: &str) -> (r: Option<Vec<String>>)
    ensures
        match regex_matches(GPT2_PRE_TOKEN_PATTERN@, text@) {
            Some(ws) => r matches Some(v) && strings_view(v@) == ws,
            None => r is None,
        },
{
    if regex_find_all(GPT2_PRE_TOKEN_PATTERN, text).is_none() {
        return None;
    }
    Some(pre_tokenize_text(text))
}

/// One piece per character.
pub open spec fn single_chars(s: Seq<char>) -> Seq<Seq<char>> {
    s.map_values(|c: char| seq![c])
}

/// The kept merge lines of a merges file: trimmed, without empty lines and
/// without the `#version` header line.
pub open spec fn is_rule_line(line: Seq<char>) -> bool {
    let t = trim_ws(line);
    t.len() > 0 && !(t.len() >= 8 && t.take(8) == "#version"@)
}

pub open spec fn rule_lines(text: Seq<char>) -> Seq<Seq<char>> {
    split_lines(text).filter(|line: Seq<char>| is_rule_line(line)).map_values(
        |line: Seq<char>| trim_ws(line),
    )
}

/// Line `k` is the first rule line that is not exactly two words.
pub open spec fn is_first_bad_rule(rules: Seq<Seq<char>>, k: int) -> bool {
    &&& 0 <= k < rules.len()
    &&& split_ws(rules[k]).len() != 2
    &&& forall|j: int| 0 <= j < k ==> #[trigger] split_ws(rules[j]).len() == 2
}

/// The merge map the first `k` rule lines give, rank = position.
pub open spec fn rules_map(rules: Seq<Seq<char>>, k: nat) -> Map<(Seq<char>, Seq<char>), usize>
    decreases k,
{
    if k == 0 {
        Map::empty()
    } else {
        let w = split_ws(rules[k - 1]);
        rules_map(rules, (k - 1) as nat).insert((w[0], w[1]), (k - 1) as usize)
    }
}

pub open spec fn invalid_merge_message(line: Seq<char>) -> Seq<char> {
    "invalid merge line: "@ + line
}

pub open spec fn out_of_range_message(id: nat, n: nat) -> Seq<char> {
    "vocab id "@ + decimal(id) + " is out of range for vocab length "@ + decimal(n)
}

pub open spec fn missing_message(id: nat) -> Seq<char> {
    "vocab id "@ + decimal(id) + " is missing"@
}

/// The (token, id) pairs of a vocabulary, by text.
pub open spec fn entries_view(v: Seq<(String, usize)>) -> Seq<(Seq<char>, usize)> {
    v.map_values(|e: (String, usize)| (e.0@, e.1))
}

/// Token to id, later entries winning.
pub open spec fn vocab_map(e: Seq<(Seq<char>, usize)>) -> Map<Seq<char>, usize>
    decreases e.len(),
{
    if e.len() == 0 {
        Map::empty()
    } else {
        vocab_map(e.drop_last()).insert(e.last().0, e.last().1)
    }
}

/// Id to token over `n` ids, empty where no entry names the id.
pub open spec fn id_slots(e: Seq<(Seq<char>, usize)>, n: nat) -> Seq<Seq<char>>
    decreases e.len(),
{
    if e.len() == 0 {
        Seq::new(n, |i: int| Seq::<char>::empty())
    } else {
        let s = id_slots(e.drop_last(), n);
        if e.last().1 < n {
            s.update(e.last().1 as int, e.last().0)
        } else {
            s
        }
    }
}

pub open spec fn is_first_out_of_range_entry(e: Seq<(Seq<char>, usize)>, k: int) -> bool {
    &&& 0 <= k < e.len()
    &&& e[k].1 >= e.len()
    &&& forall|j: int| 0 <= j < k ==> #[trigger] e[j].1 < e.len()
}

/// Id `i` is the first whose token does not map back to it, which happens
/// when the vocabulary gives one token twice.
pub open spec fn is_first_unnamed_id(m: Map<Seq<char>, usize>, slots: Seq<Seq<char>>, i: int) -> bool {
    &&& 0 <= i < slots.len()
    &&& !names_back(m, slots, i)
    &&& forall|j: int| 0 <= j < i ==> #[trigger] names_back(m, slots, j)
}

/// The token of id `i` maps back to `i`.
pub open spec fn names_back(m: Map<Seq<char>, usize>, slots: Seq<Seq<char>>, i: int) -> bool {
    m.contains_key(slots[i]) && m[slots[i]] == i
}

pub open spec fn duplicate_message(token: Seq<char>) -> Seq<char> {
    "duplicate vocab token "@ + token
}

pub open spec fn is_first_missing(slots: Seq<Seq<char>>, i: int) -> bool {
    &&& 0 <= i < slots.len()
    &&& slots[i].len() == 0
    &&& forall|j: int| 0 <= j < i ==> #[trigger] slots[j].len() > 0
}


proof fn lemma_line_scan_len(s: Seq<char>)
    ensures
        line_scan(s).0.len() + line_scan(s).1.len() <= s.len(),
    decreases s.len(),
{
    if s.len() > 0 {
        lemma_line_scan_len(s.drop_last());
    }
}

proof fn lemma_split_lines_len(s: Seq<char>)
    ensures
        split_lines(s).len() <= s.len(),
{
    lemma_line_scan_len(s);
}

/// The merge map of a rule list only depends on the rules it reads.
proof fn lemma_rules_map_agree(a: Seq<Seq<char>>, b: Seq<Seq<char>>, k: nat)
    requires
        k <= a.len(),
        k <= b.len(),
        forall|j: int| 0 <= j < k ==> a[j] == b[j],
    ensures
        rules_map(a, k) == rules_map(b, k),
    decreases k,
{
    if k > 0 {
        lemma_rules_map_agree(a, b, (k - 1) as nat);
        assert(a[k - 1] == b[k - 1]);
    }
}

/// The kept lines of a prefix of the lines begin the kept lines of all.
proof fn lemma_rule_lines_prefix(
    all: Seq<Seq<char>>,
    keep: spec_fn(Seq<char>) -> bool,
    tr: spec_fn(Seq<char>) -> Seq<char>,
    i: int,
)
    requires
        0 <= i <= all.len(),
    ensures
        ({
            let pre = all.take(i).filter(keep).map_values(tr);
            let whole = all.filter(keep).map_values(tr);
            pre.len() <= whole.len() && forall|j: int| 0 <= j < pre.len() ==> #[trigger] whole[j]
                == pre[j]
        }),
{
    assert(all =~= all.take(i) + all.skip(i));
    Seq::filter_distributes_over_add(all.take(i), all.skip(i), keep);
    let a = all.take(i).filter(keep);
    let b = all.skip(i).filter(keep);
    assert((a + b).map_values(tr) =~= a.map_values(tr) + b.map_values(tr));
}

/// GPT-2's tokenizer: a vocabulary, its inverse and the merge rules.
pub struct Gpt2Tokenizer {
    token_to_id: StringHashMap<usize>,
    id_to_token: Vec<String>,
    merges: MergeTable,
}

impl Gpt2Tokenizer {
    /// Parses merge rules, one "left right" pair per line, ranked by order.
    pub fn parse_merges_text(text: &str) -> (r: Result<MergeTable, MiniInferError>)
        requires
            text@.len() < usize::MAX / 2,
        ensures
            ({
                let rules = rule_lines(text@);
                if exists|k: int| is_first_bad_rule(rules, k) {
                    let k = choose|k: int| is_first_bad_rule(rules, k);
                    r matches Err(MiniInferError::InvalidConfig { message }) && message@
                        == invalid_merge_message(rules[k])
                } else {
                    r matches Ok(t) && t.wf() && t@ == rules_map(rules, rules.len())
                }
            }),
    {
        let chars = chars_of(text);
        let lines = split_lines_of(chars.as_slice());
        let ghost all = split_lines(text@);
        let ghost keep = |line: Seq<char>| is_rule_line(line);
        let ghost tr = |line: Seq<char>| trim_ws(line);
        proof {
            lemma_split_lines_len(text@);
        }
        let version = chars_of("#version");
        proof {
            reveal_strlit("#version");
        }
        let mut merges = MergeTable::new();
        let mut rank: usize = 0;
        let ghost mut kept: Seq<Seq<char>> = seq![];
        let mut i: usize = 0;
        while i < lines.len()
            invariant
                i <= lines@.len() == all.len(),
                lines@.map_values(|w: Vec<char>| w@) == all,
                all == split_lines(text@),
                all.len() <= text@.len() < usize::MAX / 2,
                keep == (|line: Seq<char>| is_rule_line(line)),
                tr == (|line: Seq<char>| trim_ws(line)),
                version@ == "#version"@,
                kept == all.take(i as int).filter(keep).map_values(tr),
                rank == kept.len(),
                merges.wf(),
                merges.symbol_total() <= 2 * rank,
                rank <= i,
                forall|j: int| 0 <= j < kept.len() ==> #[trigger] split_ws(kept[j]).len() == 2,
                merges@ == rules_map(kept, rank as nat),
            decreases lines.len() - i,
        {
            assert(all[i as int] == lines@[i as int]@);
            proof {
                reveal_strlit("#version");
            }
            let line = trim(lines[i].as_slice());
            let skip = line.len() == 0 || starts_with(line.as_slice(), version.as_slice());
            proof {
                assert(all.take(i + 1) =~= all.take(i as int).push(all[i as int]));
                all.take(i as int).lemma_filter_push(all[i as int], keep);
                if line@.len() >= 8 && line@.take(8) == "#version"@ {
                    assert(line@.take(version@.len() as int) == version@);
                }
            }
            if skip {
                assert(!is_rule_line(all[i as int]));
                i = i + 1;
            } else {
                assert(is_rule_line(all[i as int]));
                let parts = split_whitespace(line.as_slice());
                let ghost new_kept = kept.push(line@);
                proof {
                    assert(all.take(i + 1).filter(keep).map_values(tr) =~= new_kept);
                }
                if parts.len() != 2 {
                    let mut message = String::from_str("invalid merge line: ");
                    let line_text = string_from_chars(line.as_slice());
                    message.append(line_text.as_str());
                    proof {
                        let rules = rule_lines(text@);
                        lemma_rule_lines_prefix(all, keep, tr, i + 1);
                        assert(rules == all.filter(keep).map_values(tr));
                        assert(rules[kept.len() as int] == line@);
                        assert(is_first_bad_rule(rules, kept.len() as int));
                        let k = choose|k: int| is_first_bad_rule(rules, k);
                        if k < kept.len() {
                            assert(rules[k] == kept[k]);
                        } else if k > kept.len() {
                            assert(split_ws(rules[kept.len() as int]).len() == 2);
                        }
                    }
                    return Err(MiniInferError::InvalidConfig { message });
                }
                assert(split_ws(line@) =~= parts@.map_values(|w: Vec<char>| w@));
                let left = string_from_chars(parts[0].as_slice());
                let right = string_from_chars(parts[1].as_slice());
                merges.insert(left, right, rank);
                proof {
                    lemma_rules_map_agree(kept, new_kept, rank as nat);
                    assert(new_kept[rank as int] == line@);
                    kept = new_kept;
                }
                rank = rank + 1;
                i = i + 1;
            }
        }
        proof {
            assert(all.take(all.len() as int) =~= all);
            let rules = rule_lines(text@);
            assert(rules == kept);
        }
        Ok(merges)
    }

    #[verifier::type_invariant]
    closed spec fn inv(self) -> bool {
        &&& self.merges.wf()
        &&& self.ids_name_tokens()
        &&& self.tokens_name_ids()
    }

    /// Token text to id.
    pub closed spec fn vocab_view(&self) -> Map<Seq<char>, usize> {
        self.token_to_id@
    }

    /// Id to token text.
    pub closed spec fn tokens(&self) -> Seq<Seq<char>> {
        strings_view(self.id_to_token@)
    }

    /// The tokens in id order.
    pub fn vocab(&self) -> (v: &[String])
        ensures
            strings_view(v@) == self.tokens(),
    {
        self.id_to_token.as_slice()
    }

    /// The merge rules and their ranks.
    pub closed spec fn merge_rules(&self) -> Map<(Seq<char>, Seq<char>), usize> {
        self.merges@
    }

    /// A tokenizer with a vocabulary and no merge rules.
    pub fn from_vocab_map(vocab: Vec<(String, usize)>) -> (r: Result<Self, MiniInferError>)
        ensures
            ({
                let e = entries_view(vocab@);
                let n = vocab@.len();
                if exists|k: int| is_first_out_of_range_entry(e, k) {
                    let k = choose|k: int| is_first_out_of_range_entry(e, k);
                    r matches Err(MiniInferError::InvalidConfig { message }) && message@
                        == out_of_range_message(e[k].1 as nat, n)
                } else if exists|i: int| is_first_missing(id_slots(e, n), i) {
                    let i = choose|i: int| is_first_missing(id_slots(e, n), i);
                    r matches Err(MiniInferError::InvalidConfig { message }) && message@
                        == missing_message(i as nat)
                } else if exists|i: int| is_first_unnamed_id(vocab_map(e), id_slots(e, n), i) {
                    let i = choose|i: int| is_first_unnamed_id(vocab_map(e), id_slots(e, n), i);
                    r matches Err(MiniInferError::InvalidConfig { message }) && message@
                        == duplicate_message(id_slots(e, n)[i])
                } else {
                    r matches Ok(t) && t.vocab_view() == vocab_map(e) && t.tokens() == id_slots(e, n)
                        && t.merge_rules() == Map::<(Seq<char>, Seq<char>), usize>::empty()
                        && t.ids_name_tokens() && t.tokens_name_ids()
                }
            }),
    {
        let merges = MergeTable::new();
        Self::from_vocab_and_merges(vocab, merges)
    }

    /// A tokenizer from the text of a JSON vocabulary, an object mapping
    /// tokens to ids, with no merge rules. Which out-of-range or missing id
    /// is reported, where there are several, is left open.
    pub fn from_vocab_json(text: &str) -> (r: Result<Self, MiniInferError>)
        ensures
            vocab_json(text@) is None ==> (r matches Err(MiniInferError::InvalidConfig { message })
                && "Invalid vocab: "@.is_prefix_of(message@)),
            vocab_json(text@) matches Some(m) ==> if exists|t: Seq<char>| #[trigger] m.contains_key(t) && m[t] >= m.len() {
                r matches Err(MiniInferError::InvalidConfig { message }) && exists|t: Seq<char>|
                    #[trigger] m.contains_key(t) && m[t] >= m.len() && message@ == out_of_range_message(
                        m[t] as nat,
                        m.len(),
                    )
            } else if !vocab_covers_ids(m) {
                r matches Err(MiniInferError::InvalidConfig { message }) && exists|i: int|
                    0 <= i < m.len() && message@ == #[trigger] missing_message(i as nat)
            } else {
                r matches Ok(t) && t.vocab_view() == m && t.tokens().len() == m.len()
                    && t.merge_rules() == Map::<(Seq<char>, Seq<char>), usize>::empty()
                    && t.ids_name_tokens() && t.tokens_name_ids()
            },
    {
        match parse_vocab_json(text) {
            Err(error) => {
                let mut message = String::from_str("Invalid vocab: ");
                message.append(error.as_str());
                proof {
                    reveal_strlit("Invalid vocab: ");
                    assert(message@.take(15) =~= "Invalid vocab: "@);
                }
                Err(MiniInferError::InvalidConfig { message })
            },
            Ok(vocab) => {
                let ghost e = entries_view(vocab@);
                let ghost m = vocab_json(text@)->0;
                proof {
                    lemma_parsed_vocab_map(vocab@, m);
                }
                let r = Self::from_vocab_map(vocab);
                proof {
                    lemma_vocab_json_outcome(e, m, r);
                }
                r
            },
        }
    }

    /// The same vocabulary with the given merge rules.
    pub fn with_merges(self, merges: MergeTable) -> (t: Self)
        requires
            merges.wf(),
        ensures
            t.vocab_view() == self.vocab_view(),
            t.tokens() == self.tokens(),
            t.merge_rules() == merges@,
    {
        proof {
            use_type_invariant(&self);
        }
        proof {
            let g = Self { token_to_id: self.token_to_id, id_to_token: self.id_to_token, merges };
            assert(g.vocab_view() == self.vocab_view());
            assert(g.tokens() == self.tokens());
            assert(g.ids_name_tokens());
            assert(g.tokens_name_ids());
        }
        Self { token_to_id: self.token_to_id, id_to_token: self.id_to_token, merges }
    }

    /// A tokenizer from (token, id) pairs, which must number the ids
    /// `0..vocab.len()` each once with distinct tokens, and merge rules.
    pub fn from_vocab_and_merges(vocab: Vec<(String, usize)>, merges: MergeTable) -> (r: Result<
        Self,
        MiniInferError,
    >)
        requires
            merges.wf(),
        ensures
            ({
                let e = entries_view(vocab@);
                let n = vocab@.len();
                if exists|k: int| is_first_out_of_range_entry(e, k) {
                    let k = choose|k: int| is_first_out_of_range_entry(e, k);
                    r matches Err(MiniInferError::InvalidConfig { message }) && message@
                        == out_of_range_message(e[k].1 as nat, n)
                } else if exists|i: int| is_first_missing(id_slots(e, n), i) {
                    let i = choose|i: int| is_first_missing(id_slots(e, n), i);
                    r matches Err(MiniInferError::InvalidConfig { message }) && message@
                        == missing_message(i as nat)
                } else if exists|i: int| is_first_unnamed_id(vocab_map(e), id_slots(e, n), i) {
                    let i = choose|i: int| is_first_unnamed_id(vocab_map(e), id_slots(e, n), i);
                    r matches Err(MiniInferError::InvalidConfig { message }) && message@
                        == duplicate_message(id_slots(e, n)[i])
                } else {
                    r matches Ok(t) && t.vocab_view() == vocab_map(e) && t.tokens() == id_slots(e, n)
                        && t.merge_rules() == merges@ && t.ids_name_tokens() && t.tokens_name_ids()
                }
            }),
    {
        let ghost e = entries_view(vocab@);
        let n = vocab.len();
        let mut id_to_token: Vec<String> = Vec::new();
        while id_to_token.len() < n
            invariant
                id_to_token@.len() <= n,
                forall|j: int| 0 <= j < id_to_token@.len() ==> (#[trigger] id_to_token@[j])@.len()
                    == 0,
            decreases n - id_to_token.len(),
        {
            id_to_token.push(String::new());
        }
        assert forall|j: int| 0 <= j < n implies #[trigger] strings_view(id_to_token@)[j]
            =~= Seq::<char>::empty() by {
            assert(id_to_token@[j]@.len() == 0);
        }
        assert(strings_view(id_to_token@) =~= id_slots(e.take(0), n as nat));
        let mut token_to_id: StringHashMap<usize> = StringHashMap::new();
        let mut k: usize = 0;
        while k < n
            invariant
                k <= n == vocab@.len() == e.len(),
                e == entries_view(vocab@),
                id_to_token@.len() == n,
                strings_view(id_to_token@) == id_slots(e.take(k as int), n as nat),
                token_to_id@ == vocab_map(e.take(k as int)),
                forall|j: int| 0 <= j < k ==> #[trigger] e[j].1 < n,
            decreases n - k,
        {
            let token = &vocab[k].0;
            let id = vocab[k].1;
            assert(e[k as int] == (token@, id));
            proof {
                assert(e.take(k + 1).drop_last() =~= e.take(k as int));
            }
            if id >= n {
                let mut message = String::from_str("vocab id ");
                append_decimal(&mut message, id);
                message.append(" is out of range for vocab length ");
                append_decimal(&mut message, n);
                proof {
                    assert(is_first_out_of_range_entry(e, k as int));
                    let c = choose|c: int| is_first_out_of_range_entry(e, c);
                    if c < k {
                        assert(e[c].1 < n);
                    } else if c > k {
                        assert(e[k as int].1 < e.len());
                    }
                    assert(message@ =~= out_of_range_message(id as nat, n as nat));
                }
                return Err(MiniInferError::InvalidConfig { message });
            }
            id_to_token.set(id, token.clone());
            token_to_id.insert(token.clone(), id);
            k = k + 1;
            proof {
                assert(strings_view(id_to_token@) =~= id_slots(e.take(k as int), n as nat));
            }
        }
        assert(e.take(n as int) =~= e);
        let mut id: usize = 0;
        while id < n
            invariant
                id <= n == id_to_token@.len(),
                strings_view(id_to_token@) == id_slots(e, n as nat),
                forall|j: int| 0 <= j < id ==> #[trigger] id_slots(e, n as nat)[j].len() > 0,
                e.len() == n == vocab@.len(),
                e == entries_view(vocab@),
                forall|j: int| 0 <= j < n ==> #[trigger] e[j].1 < n,
            decreases n - id,
        {
            if id_to_token[id].as_str().is_empty() {
                let mut message = String::from_str("vocab id ");
                append_decimal(&mut message, id);
                message.append(" is missing");
                proof {
                    let slots = id_slots(e, n as nat);
                    assert(!exists|c: int| is_first_out_of_range_entry(e, c));
                    assert(slots[id as int] == id_to_token@[id as int]@);
                    assert(is_first_missing(slots, id as int));
                    let c = choose|c: int| is_first_missing(slots, c);
                    if c < id {
                    } else if c > id {
                        assert(slots[id as int].len() > 0);
                    }
                    assert(message@ =~= missing_message(id as nat));
                }
                return Err(MiniInferError::InvalidConfig { message });
            }
            assert(id_slots(e, n as nat)[id as int] == id_to_token@[id as int]@);
            id = id + 1;
        }
        proof {
            lemma_built_vocab_consistent(e, n as nat);
        }
        let ghost m = vocab_map(e);
        let ghost slots = id_slots(e, n as nat);
        let mut id: usize = 0;
        while id < n
            invariant
                id <= n == id_to_token@.len(),
                strings_view(id_to_token@) == slots,
                slots == id_slots(e, n as nat),
                e == entries_view(vocab@),
                e.len() == n == vocab@.len(),
                token_to_id@ == m,
                m == vocab_map(e),
                !exists|c: int| is_first_out_of_range_entry(e, c),
                !exists|c: int| is_first_missing(slots, c),
                forall|j: int| 0 <= j < id ==> #[trigger] names_back(m, slots, j),
            decreases n - id,
        {
            assert(slots[id as int] == id_to_token@[id as int]@);
            let named_back = match token_to_id.get(id_to_token[id].as_str()) {
                Some(back) => *back == id,
                None => false,
            };
            assert(named_back == names_back(m, slots, id as int));
            if !named_back {
                let mut message = String::from_str("duplicate vocab token ");
                message.append(id_to_token[id].as_str());
                proof {
                    assert(is_first_unnamed_id(m, slots, id as int));
                    let c = choose|c: int| is_first_unnamed_id(m, slots, c);
                    if c < id {
                    } else if c > id {
                        assert(names_back(m, slots, id as int));
                    }
                    assert(message@ =~= duplicate_message(slots[id as int]));
                }
                return Err(MiniInferError::InvalidConfig { message });
            }
            id = id + 1;
        }
        proof {
            assert forall|i: int| 0 <= i < slots.len() implies #[trigger] m.contains_key(slots[i])
                && m[slots[i]] == i by {
                assert(names_back(m, slots, i));
            }
        }
        let t = Self { token_to_id, id_to_token, merges };
        proof {
            assert forall|c: int| !is_first_unnamed_id(m, slots, c) by {
                if 0 <= c < slots.len() {
                    assert(names_back(m, slots, c));
                }
            }
        }
        Ok(t)
    }

    pub fn token_to_id(&self, token: &str) -> (r: Option<usize>)
        ensures
            r == (if self.vocab_view().contains_key(token@) {
                Some(self.vocab_view()[token@])
            } else {
                None
            }),
    {
        match self.token_to_id.get(token) {
            Some(id) => Some(*id),
            None => None,
        }
    }

    pub fn id_to_token(&self, id: usize) -> (r: Option<&str>)
        ensures
            match r {
                Some(s) => id < self.tokens().len() && s@ == self.tokens()[id as int],
                None => id >= self.tokens().len(),
            },
    {
        if id < self.id_to_token.len() {
            Some(self.id_to_token[id].as_str())
        } else {
            None
        }
    }

    pub fn merge_rank(&self, left: &str, right: &str) -> (r: Option<usize>)
        ensures
            r == (if self.merge_rules().contains_key((left@, right@)) {
                Some(self.merge_rules()[(left@, right@)])
            } else {
                None
            }),
    {
        proof {
            use_type_invariant(self);
        }
        self.merges.get(left, right)
    }

    pub fn apply_bpe_merges(&self, pieces: &[String]) -> (out: Vec<String>)
        ensures
            strings_view(out@) == bpe(self.merge_rules(), strings_view(pieces@)),
    {
        proof {
            use_type_invariant(self);
        }
        apply_merges(pieces, &self.merges)
    }

    pub fn tokenize_word(&self, word: &str) -> (out: Vec<String>)
        ensures
            strings_view(out@) == bpe(self.merge_rules(), single_chars(word@)),
    {
        let mut pieces: Vec<String> = Vec::new();
        for c in it: word.chars()
            invariant
                it.seq() == word@,
                strings_view(pieces@) == single_chars(word@.take(it.index() as int)),
        {
            let mut piece = String::new();
            push_char(&mut piece, c);
            let ghost before = pieces@;
            let ghost idx = it.index() as int;
            pieces.push(piece);
            proof {
                assert(c == word@[idx]);
                assert(piece@ =~= seq![c]);
                assert(strings_view(pieces@) =~= strings_view(before).push(seq![c]));
                assert(word@.take(idx + 1) =~= word@.take(idx).push(c));
                assert(single_chars(word@.take(idx + 1)) =~= single_chars(word@.take(idx)).push(
                    seq![c],
                ));
            }
        }
        assert(word@.take(word@.len() as int) =~= word@);
        self.apply_bpe_merges(pieces.as_slice())
    }

    /// The tokens one word merges into.
    pub open spec fn word_tokens(&self, word: Seq<char>) -> Seq<Seq<char>> {
        bpe(self.merge_rules(), single_chars(byte_level_encode(word)))
    }

    /// The ids of one word: `None` when a merged piece is not in the vocabulary.
    pub open spec fn word_ids(&self, word: Seq<char>) -> Option<Seq<usize>> {
        let toks = self.word_tokens(word);
        if forall|i: int| 0 <= i < toks.len() ==> #[trigger] self.vocab_view().contains_key(toks[i]) {
            Some(toks.map_values(|t: Seq<char>| self.vocab_view()[t]))
        } else {
            None
        }
    }

    pub fn encode_word(&self, word: &str) -> (r: Result<Vec<usize>, MiniInferError>)
        ensures
            match self.word_ids(word@) {
                Some(ids) => r matches Ok(v) && v@ == ids,
                None => r == Err::<Vec<usize>, MiniInferError>(MiniInferError::InvalidInput),
            },
            r matches Ok(v) ==> (forall|k: int| 0 <= k < v@.len() ==> #[trigger] v@[k] < self.tokens().len())
                && v@.map_values(|i: usize| self.tokens()[i as int]).flatten() == byte_level_encode(word@),
    {
        let encoded = encode_bytes_to_unicode(word);
        let tokens = self.tokenize_word(encoded.as_str());
        let ghost toks = strings_view(tokens@);
        let mut token_ids: Vec<usize> = Vec::new();
        let mut k: usize = 0;
        while k < tokens.len()
            invariant
                k <= tokens@.len(),
                toks == strings_view(tokens@),
                toks == self.word_tokens(word@),
                token_ids@.len() == k,
                forall|j: int| 0 <= j < k ==> #[trigger] self.vocab_view().contains_key(toks[j])
                    && token_ids@[j] == self.vocab_view()[toks[j]],
            decreases tokens.len() - k,
        {
            assert(toks[k as int] == tokens@[k as int]@);
            match self.token_to_id(tokens[k].as_str()) {
                Some(id) => token_ids.push(id),
                None => {
                    proof {
                        assert(!self.vocab_view().contains_key(toks[k as int]));
                        assert(self.word_tokens(word@) == toks);
                    }
                    return Err(MiniInferError::InvalidInput);
                },
            }
            k = k + 1;
        }
        assert(token_ids@.len() == toks.len());
        assert forall|j: int| 0 <= j < toks.len() implies token_ids@[j] == toks.map_values(
            |t: Seq<char>| self.vocab_view()[t],
        )[j] by {
            assert(self.vocab_view().contains_key(toks[j]));
        }
        assert(token_ids@ =~= toks.map_values(|t: Seq<char>| self.vocab_view()[t]));
        proof {
            use_type_invariant(self);
            assert forall|k: int| 0 <= k < token_ids@.len() implies #[trigger] token_ids@[k] < self.tokens().len()
                && self.tokens()[token_ids@[k] as int] == toks[k] by {
                assert(self.vocab_view().contains_key(toks[k]));
            }
            assert(token_ids@.map_values(|i: usize| self.tokens()[i as int]) =~= toks);
            lemma_bpe_preserves_text(self.merge_rules(), single_chars(byte_level_encode(word@)));
            lemma_single_chars_flatten(byte_level_encode(word@));
        }
        Ok(token_ids)
    }

    /// The ids of a text: `None` when it cannot be cut into words or a word
    /// has a piece outside the vocabulary.
    pub open spec fn spec_encode(&self, text: Seq<char>) -> Option<Seq<usize>> {
        match regex_matches(GPT2_PRE_TOKEN_PATTERN@, text) {
            Some(words) => if forall|k: int| 0 <= k < words.len() ==> #[trigger] self.word_ids(
                words[k],
            ) is Some {
                Some(words.map_values(|w: Seq<char>| self.word_ids(w)->0).flatten())
            } else {
                None
            },
            None => None,
        }
    }
}

impl Tokenizer for Gpt2Tokenizer {
    fn encode(&self, text: &str) -> (r: Result<Vec<usize>, MiniInferError>)
        ensures
            match self.spec_encode(text@) {
                Some(ids) => r matches Ok(v) && v@ == ids,
                None => r == Err::<Vec<usize>, MiniInferError>(MiniInferError::InvalidInput),
            },
            r matches Ok(v) ==> forall|k: int| 0 <= k < v@.len() ==> #[trigger] v@[k] < self.tokens().len(),
            r matches Ok(v) ==> (regex_matches(GPT2_PRE_TOKEN_PATTERN@, text@) matches Some(ws)
                && ws.flatten() == text@ ==> byte_level_decode(
                v@.map_values(|i: usize| self.tokens()[i as int]).flatten(),
            ) == Some(text@)),
    {
        proof {
            use_type_invariant(self);
        }
        let words = match checked_pre_tokenize_text(text) {
            Some(words) => words,
            None => {
                return Err(MiniInferError::InvalidInput);
            },
        };
        let ghost ws = strings_view(words@);
        let mut token_ids: Vec<usize> = Vec::new();
        let mut k: usize = 0;
        while k < words.len()
            invariant
                k <= words@.len(),
                ws == strings_view(words@),
                regex_matches(GPT2_PRE_TOKEN_PATTERN@, text@) == Some(ws),
                forall|j: int| 0 <= j < k ==> #[trigger] self.word_ids(ws[j]) is Some,
                token_ids@ == ws.take(k as int).map_values(|w: Seq<char>| self.word_ids(w)->0).flatten(),
            decreases words.len() - k,
        {
            assert(ws[k as int] == words@[k as int]@);
            let ids = match self.encode_word(words[k].as_str()) {
                Ok(ids) => ids,
                Err(err) => {
                    return Err(err);
                },
            };
            let ghost before = token_ids@;
            let mut j: usize = 0;
            while j < ids.len()
                invariant
                    j <= ids@.len(),
                    token_ids@ == before + ids@.take(j as int),
                decreases ids.len() - j,
            {
                token_ids.push(ids[j]);
                j = j + 1;
                assert(token_ids@ =~= before + ids@.take(j as int));
            }
            proof {
                assert(ids@.take(ids@.len() as int) =~= ids@);
                let f = |w: Seq<char>| self.word_ids(w)->0;
                assert(ws.take(k + 1).map_values(f) =~= ws.take(k as int).map_values(f).push(
                    ids@,
                ));
                ws.take(k as int).map_values(f).lemma_flatten_push(ids@);
            }
            k = k + 1;
        }
        assert(ws.take(ws.len() as int) =~= ws);
        proof {
            if ws.flatten() == text@ {
                lemma_decode_after_encode(*self, text@);
            } else {
                lemma_ids_in_range(*self, text@);
            }
        }
        Ok(token_ids)
    }

    fn decode(&self, token_ids: &[usize]) -> (r: Result<String, MiniInferError>)
        ensures
            if exists|k: int| is_first_out_of_range_id(token_ids@, self.tokens().len(), k) {
                let k = choose|k: int| is_first_out_of_range_id(token_ids@, self.tokens().len(), k);
                r == Err::<String, MiniInferError>(
                    MiniInferError::IndexOutOfBounds { index: token_ids@[k], len: self.tokens().len() as usize },
                )
            } else {
                match byte_level_decode(
                    token_ids@.map_values(|i: usize| self.tokens()[i as int]).flatten(),
                ) {
                    Some(s) => r matches Ok(out) && out@ == s,
                    None => r == Err::<String, MiniInferError>(MiniInferError::InvalidInput),
                }
            },
    {
        let ghost n = self.tokens().len();
        let ghost f = |i: usize| self.tokens()[i as int];
        let mut text = String::new();
        let mut k: usize = 0;
        while k < token_ids.len()
            invariant
                k <= token_ids@.len(),
                n == self.tokens().len() == self.id_to_token@.len(),
                f == (|i: usize| self.tokens()[i as int]),
                forall|j: int| 0 <= j < k ==> token_ids@[j] < n,
                text@ == token_ids@.take(k as int).map_values(f).flatten(),
            decreases token_ids.len() - k,
        {
            let id = token_ids[k];
            match self.id_to_token(id) {
                Some(token) => {
                    proof {
                        assert(token_ids@.take(k + 1).map_values(f) =~= token_ids@.take(
                            k as int,
                        ).map_values(f).push(token@));
                        token_ids@.take(k as int).map_values(f).lemma_flatten_push(token@);
                    }
                    text.append(token);
                },
                None => {
                    proof {
                        assert(is_first_out_of_range_id(token_ids@, n, k as int));
                        let c = choose|c: int| is_first_out_of_range_id(token_ids@, n, c);
                        if c < k {
                            assert(token_ids@[c] < n);
                        } else if c > k {
                            assert(token_ids@[k as int] < n);
                        }
                    }
                    return Err(
                        MiniInferError::IndexOutOfBounds { index: id, len: self.id_to_token.len() },
                    );
                },
            }
            k = k + 1;
        }
        proof {
            assert(token_ids@.take(token_ids@.len() as int) =~= token_ids@);
            assert(!exists|c: int| is_first_out_of_range_id(token_ids@, n, c));
        }
        clean_decoded_tokens(text.as_str())
    }
}


impl Gpt2Tokenizer {
    /// Every id names a token of the vocabulary that maps back to it.
    pub open spec fn tokens_name_ids(&self) -> bool {
        forall|i: int|
            0 <= i < self.tokens().len() ==> #[trigger] self.vocab_view().contains_key(self.tokens()[i])
                && self.vocab_view()[self.tokens()[i]] == i
    }

    /// Every token of the vocabulary has an id that names it back.
    pub open spec fn ids_name_tokens(&self) -> bool {
        forall|tok: Seq<char>|
            #[trigger] self.vocab_view().contains_key(tok) ==> self.vocab_view()[tok] < self.tokens().len()
                && self.tokens()[self.vocab_view()[tok] as int] == tok
    }
}

proof fn lemma_id_slots_len(e: Seq<(Seq<char>, usize)>, n: nat)
    ensures
        id_slots(e, n).len() == n,
    decreases e.len(),
{
    if e.len() > 0 {
        lemma_id_slots_len(e.drop_last(), n);
    }
}

/// A filled slot was filled by an entry with that id.
proof fn lemma_slot_source(e: Seq<(Seq<char>, usize)>, n: nat, i: int)
    requires
        0 <= i < n,
        id_slots(e, n)[i].len() > 0,
    ensures
        exists|j: int| 0 <= j < e.len() && e[j].1 == i,
    decreases e.len(),
{
    lemma_id_slots_len(e, n);
    if e.len() == 0 {
        assert(id_slots(e, n)[i] == Seq::<char>::empty());
    } else {
        let last = e.len() - 1;
        if e.last().1 == i {
            assert(e[last].1 == i);
        } else {
            lemma_id_slots_len(e.drop_last(), n);
            assert(id_slots(e, n)[i] == id_slots(e.drop_last(), n)[i]);
            lemma_slot_source(e.drop_last(), n, i);
            let j = choose|j: int| 0 <= j < e.drop_last().len() && e.drop_last()[j].1 == i;
            assert(e[j].1 == i);
        }
    }
}

/// With distinct ids, every entry's slot holds that entry's token.
proof fn lemma_slot_of_entry(e: Seq<(Seq<char>, usize)>, n: nat, j: int)
    requires
        0 <= j < e.len(),
        e[j].1 < n,
        e.map_values(|p: (Seq<char>, usize)| p.1 as int).no_duplicates(),
    ensures
        id_slots(e, n)[e[j].1 as int] == e[j].0,
    decreases e.len(),
{
    lemma_id_slots_len(e, n);
    let ids = e.map_values(|p: (Seq<char>, usize)| p.1 as int);
    if j < e.len() - 1 {
        let rest = e.drop_last();
        let rest_ids = rest.map_values(|p: (Seq<char>, usize)| p.1 as int);
        assert(rest_ids.no_duplicates()) by {
            assert forall|a: int, b: int| 0 <= a < rest_ids.len() && 0 <= b < rest_ids.len() && a != b implies rest_ids[a]
                != rest_ids[b] by {
                assert(rest_ids[a] == ids[a] && rest_ids[b] == ids[b]);
            }
        }
        lemma_slot_of_entry(rest, n, j);
        lemma_id_slots_len(rest, n);
        assert(ids[j] != ids[e.len() - 1]);
        assert(rest[j] == e[j]);
        let slots = id_slots(rest, n);
        assert(e.last().1 != e[j].1);
        if e.last().1 < n {
            assert(id_slots(e, n) == slots.update(e.last().1 as int, e.last().0));
        } else {
            assert(id_slots(e, n) == slots);
        }
    } else {
        let slots = id_slots(e.drop_last(), n);
        lemma_id_slots_len(e.drop_last(), n);
        assert(e.last() == e[j]);
        assert(id_slots(e, n) == slots.update(e.last().1 as int, e.last().0));
    }
}

/// A token of the vocabulary map got its id from an entry.
proof fn lemma_vocab_source(e: Seq<(Seq<char>, usize)>, tok: Seq<char>)
    requires
        vocab_map(e).contains_key(tok),
    ensures
        exists|j: int| 0 <= j < e.len() && e[j].0 == tok && vocab_map(e)[tok] == e[j].1,
    decreases e.len(),
{
    if e.len() > 0 {
        let last = e.len() - 1;
        if e.last().0 == tok {
            assert(e[last].0 == tok && vocab_map(e)[tok] == e[last].1);
        } else {
            lemma_vocab_source(e.drop_last(), tok);
            let j = choose|j: int| 0 <= j < e.drop_last().len() && e.drop_last()[j].0 == tok && vocab_map(
                e.drop_last(),
            )[tok] == e.drop_last()[j].1;
            assert(e[j] == e.drop_last()[j]);
        }
    }
}

/// When `n` entries with ids below `n` fill all `n` slots, every token's id
/// names that token back.
proof fn lemma_built_vocab_consistent(e: Seq<(Seq<char>, usize)>, n: nat)
    requires
        e.len() == n,
        forall|j: int| 0 <= j < n ==> #[trigger] e[j].1 < n,
        forall|i: int| 0 <= i < n ==> #[trigger] id_slots(e, n)[i].len() > 0,
    ensures
        forall|tok: Seq<char>|
            #[trigger] vocab_map(e).contains_key(tok) ==> vocab_map(e)[tok] < n && id_slots(e, n)[vocab_map(
                e,
            )[tok] as int] == tok,
{
    broadcast use vstd::seq_lib::seq_to_set_is_finite;
    let ids = e.map_values(|p: (Seq<char>, usize)| p.1 as int);
    let range = vstd::set_lib::set_int_range(0, n as int);
    assert(range.subset_of(ids.to_set())) by {
        assert forall|i: int| range.contains(i) implies ids.to_set().contains(i) by {
            lemma_slot_source(e, n, i);
            let j = choose|j: int| 0 <= j < e.len() && e[j].1 == i;
            assert(ids[j] == i);
        }
    }
    vstd::set_lib::lemma_int_range(0, n as int);
    vstd::set_lib::lemma_len_subset(range, ids.to_set());
    ids.lemma_cardinality_of_set();
    ids.lemma_no_dup_set_cardinality();
    assert forall|tok: Seq<char>| #[trigger] vocab_map(e).contains_key(tok) implies vocab_map(e)[tok] < n
        && id_slots(e, n)[vocab_map(e)[tok] as int] == tok by {
        lemma_vocab_source(e, tok);
        let j = choose|j: int| 0 <= j < e.len() && e[j].0 == tok && vocab_map(e)[tok] == e[j].1;
        lemma_slot_of_entry(e, n, j);
    }
}

proof fn lemma_flatten_concat<A>(a: Seq<Seq<A>>, b: Seq<Seq<A>>)
    ensures
        (a + b).flatten() == a.flatten() + b.flatten(),
    decreases a.len(),
{
    if a.len() == 0 {
        assert(a + b =~= b);
        assert(a.flatten() + b.flatten() =~= b.flatten());
    } else {
        assert((a + b).drop_first() =~= a.drop_first() + b);
        assert((a + b).first() == a.first());
        lemma_flatten_concat(a.drop_first(), b);
        assert((a + b).flatten() =~= a.first() + (a.drop_first().flatten() + b.flatten()));
        assert(a.flatten() == a.first() + a.drop_first().flatten());
        assert(a.first() + (a.drop_first().flatten() + b.flatten()) =~= a.first()
            + a.drop_first().flatten() + b.flatten());
    }
}

proof fn lemma_flatten_map<A, B>(xs: Seq<Seq<A>>, f: spec_fn(A) -> B)
    ensures
        xs.flatten().map_values(f) == xs.map_values(|x: Seq<A>| x.map_values(f)).flatten(),
    decreases xs.len(),
{
    let g = |x: Seq<A>| x.map_values(f);
    if xs.len() == 0 {
        assert(xs.flatten().map_values(f) =~= Seq::<B>::empty());
        assert(xs.map_values(g) =~= Seq::<Seq<B>>::empty());
    } else {
        lemma_flatten_map(xs.drop_first(), f);
        assert(xs.map_values(g).drop_first() =~= xs.drop_first().map_values(g));
        assert(xs.map_values(g).first() == xs.first().map_values(f));
        assert(xs.flatten().map_values(f) =~= xs.first().map_values(f) + xs.drop_first().flatten().map_values(f));
        assert(xs.map_values(g).flatten() == xs.map_values(g).first() + xs.map_values(g).drop_first().flatten());
    }
}

proof fn lemma_flatten_flatten<A>(xss: Seq<Seq<Seq<A>>>)
    ensures
        xss.flatten().flatten() == xss.map_values(|x: Seq<Seq<A>>| x.flatten()).flatten(),
    decreases xss.len(),
{
    let g = |x: Seq<Seq<A>>| x.flatten();
    if xss.len() == 0 {
        assert(xss.flatten() =~= Seq::<Seq<A>>::empty());
        assert(xss.map_values(g) =~= Seq::<Seq<A>>::empty());
        assert(Seq::<Seq<A>>::empty().flatten() =~= Seq::<A>::empty());
    } else {
        lemma_flatten_flatten(xss.drop_first());
        lemma_flatten_concat(xss.first(), xss.drop_first().flatten());
        assert(xss.map_values(g).drop_first() =~= xss.drop_first().map_values(g));
        assert(xss.map_values(g).first() == xss.first().flatten());
        assert(xss.map_values(g).flatten() == xss.map_values(g).first() + xss.map_values(g).drop_first().flatten());
    }
}

proof fn lemma_flatten_all<A>(xs: Seq<Seq<A>>, p: spec_fn(A) -> bool)
    requires
        forall|i: int, j: int| 0 <= i < xs.len() && 0 <= j < xs[i].len() ==> p(#[trigger] xs[i][j]),
    ensures
        forall|k: int| 0 <= k < xs.flatten().len() ==> p(#[trigger] xs.flatten()[k]),
    decreases xs.len(),
{
    if xs.len() > 0 {
        let rest = xs.drop_first();
        assert forall|i: int, j: int| 0 <= i < rest.len() && 0 <= j < rest[i].len() implies p(#[trigger] rest[i][j]) by {
            assert(rest[i] == xs[i + 1]);
        }
        lemma_flatten_all(rest, p);
        assert forall|k: int| 0 <= k < xs.flatten().len() implies p(#[trigger] xs.flatten()[k]) by {
            assert(xs.flatten() == xs.first() + rest.flatten());
            if k < xs.first().len() {
                assert(xs.flatten()[k] == xs[0][k]);
            } else {
                assert(xs.flatten()[k] == rest.flatten()[k - xs.first().len()]);
            }
        }
    }
}

proof fn lemma_single_chars_flatten(s: Seq<char>)
    ensures
        single_chars(s).flatten() == s,
    decreases s.len(),
{
    if s.len() > 0 {
        assert(single_chars(s).drop_first() =~= single_chars(s.drop_first()));
        lemma_single_chars_flatten(s.drop_first());
        assert(single_chars(s).first() == seq![s[0]]);
        assert(seq![s[0]] + s.drop_first() =~= s);
    } else {
        assert(single_chars(s) =~= Seq::<Seq<char>>::empty());
    }
}

proof fn lemma_encode_utf8_concat(a: Seq<char>, b: Seq<char>)
    ensures
        encode_utf8(a + b) == encode_utf8(a) + encode_utf8(b),
    decreases a.len(),
{
    if a.len() == 0 {
        assert(a + b =~= b);
        assert(encode_utf8(a) =~= Seq::<u8>::empty());
        assert(encode_utf8(a) + encode_utf8(b) =~= encode_utf8(b));
    } else {
        assert((a + b).drop_first() =~= a.drop_first() + b);
        assert((a + b)[0] == a[0]);
        lemma_encode_utf8_concat(a.drop_first(), b);
        let head = vstd::utf8::encode_scalar(a[0] as u32);
        assert(encode_utf8(a + b) == head + encode_utf8((a + b).drop_first()));
        assert(encode_utf8(a) == head + encode_utf8(a.drop_first()));
        assert(head + (encode_utf8(a.drop_first()) + encode_utf8(b)) =~= head + encode_utf8(a.drop_first())
            + encode_utf8(b));
    }
}

proof fn lemma_byte_level_encode_flatten(ws: Seq<Seq<char>>)
    ensures
        byte_level_encode(ws.flatten()) == ws.map_values(|w: Seq<char>| byte_level_encode(w)).flatten(),
    decreases ws.len(),
{
    let g = |w: Seq<char>| byte_level_encode(w);
    if ws.len() == 0 {
        assert(ws.flatten() =~= Seq::<char>::empty());
        assert(encode_utf8(Seq::<char>::empty()) =~= Seq::<u8>::empty());
        assert(byte_level_encode(ws.flatten()) =~= Seq::<char>::empty());
        assert(ws.map_values(g) =~= Seq::<Seq<char>>::empty());
    } else {
        lemma_byte_level_encode_flatten(ws.drop_first());
        lemma_encode_utf8_concat(ws.first(), ws.drop_first().flatten());
        assert(ws.flatten() == ws.first() + ws.drop_first().flatten());
        assert(ws.map_values(g).drop_first() =~= ws.drop_first().map_values(g));
        assert(ws.map_values(g).flatten() == ws.map_values(g).first() + ws.map_values(g).drop_first().flatten());
        let ea = encode_utf8(ws.first());
        let eb = encode_utf8(ws.drop_first().flatten());
        let h = |x: u8| crate::byte_level::byte_char(x);
        assert((ea + eb).map_values(h) =~= ea.map_values(h) + eb.map_values(h));
    }
}

/// Every id that encoding gives names a token, for a tokenizer whose token
/// ids name their tokens.
proof fn lemma_ids_in_range(t: Gpt2Tokenizer, text: Seq<char>)
    requires
        t.ids_name_tokens(),
        t.spec_encode(text) is Some,
    ensures
        forall|k: int| 0 <= k < t.spec_encode(text)->0.len() ==> #[trigger] t.spec_encode(text)->0[k] < t.tokens().len(),
{
    let ws = regex_matches(GPT2_PRE_TOKEN_PATTERN@, text)->0;
    let word_ids = |w: Seq<char>| t.word_ids(w)->0;
    let per_word = ws.map_values(word_ids);
    assert forall|i: int, j: int| 0 <= i < per_word.len() && 0 <= j < per_word[i].len() implies (#[trigger] per_word[i][j])
        < t.tokens().len() by {
        assert(t.word_ids(ws[i]) is Some);
        let toks = t.word_tokens(ws[i]);
        assert(t.vocab_view().contains_key(toks[j]));
    }
    lemma_flatten_all(per_word, |x: usize| x < t.tokens().len());
}

/// Decoding what encoding gives back returns the text, for a tokenizer whose
/// token ids name their tokens (as every tokenizer value does, by the type's
/// invariant) and a text that the pre-tokenization cuts into words without
/// leaving anything out: every id that encoding gives is in range, and the
/// stand-in text of the ids decodes to the text.
pub proof fn lemma_decode_after_encode(t: Gpt2Tokenizer, text: Seq<char>)
    requires
        t.ids_name_tokens(),
        regex_matches(GPT2_PRE_TOKEN_PATTERN@, text) matches Some(ws) && ws.flatten() == text,
        t.spec_encode(text) is Some,
    ensures
        ({
            let ids = t.spec_encode(text)->0;
            &&& forall|k: int| 0 <= k < ids.len() ==> #[trigger] ids[k] < t.tokens().len()
            &&& byte_level_decode(ids.map_values(|i: usize| t.tokens()[i as int]).flatten()) == Some(text)
        }),
{
    let ws = regex_matches(GPT2_PRE_TOKEN_PATTERN@, text)->0;
    let ids = t.spec_encode(text)->0;
    let tok = |i: usize| t.tokens()[i as int];
    let word_ids = |w: Seq<char>| t.word_ids(w)->0;
    let per_word = ws.map_values(word_ids);
    assert(ids == per_word.flatten());
    assert forall|i: int, j: int| 0 <= i < per_word.len() && 0 <= j < per_word[i].len() implies (#[trigger] per_word[i][j])
        < t.tokens().len() && t.tokens()[per_word[i][j] as int] == t.word_tokens(ws[i])[j] by {
        assert(t.word_ids(ws[i]) is Some);
        let toks = t.word_tokens(ws[i]);
        assert(t.vocab_view().contains_key(toks[j]));
        assert(per_word[i][j] == t.vocab_view()[toks[j]]);
    }
    lemma_flatten_all(per_word, |x: usize| x < t.tokens().len());
    lemma_flatten_map(per_word, tok);
    let word_tokens = |w: Seq<char>| t.word_tokens(w);
    let named = per_word.map_values(|x: Seq<usize>| x.map_values(tok));
    let nested = ws.map_values(word_tokens);
    assert(named =~= nested) by {
        assert forall|i: int| 0 <= i < ws.len() implies #[trigger] named[i] == nested[i] by {
            assert(per_word[i].map_values(tok) =~= t.word_tokens(ws[i]));
        }
    }
    lemma_flatten_flatten(nested);
    let enc = |w: Seq<char>| byte_level_encode(w);
    let joined = nested.map_values(|x: Seq<Seq<char>>| x.flatten());
    let encoded = ws.map_values(enc);
    assert(joined =~= encoded) by {
        assert forall|i: int| 0 <= i < ws.len() implies #[trigger] joined[i] == encoded[i] by {
            lemma_bpe_preserves_text(t.merge_rules(), single_chars(byte_level_encode(ws[i])));
            lemma_single_chars_flatten(byte_level_encode(ws[i]));
        }
    }
    lemma_byte_level_encode_flatten(ws);
    lemma_byte_level_round_trip(text);
}


/// The entries a JSON vocabulary lists spell out its map.
proof fn lemma_parsed_vocab_map(v: Seq<(String, usize)>, m: Map<Seq<char>, usize>)
    requires
        v.len() == m.len(),
        forall|i: int| 0 <= i < v.len() ==> #[trigger] m.contains_key(v[i].0@) && m[v[i].0@] == v[i].1,
        forall|i: int, j: int| 0 <= i < j < v.len() ==> #[trigger] v[i].0@ != #[trigger] v[j].0@,
        forall|t: Seq<char>| #[trigger] m.contains_key(t) ==> exists|i: int| 0 <= i < v.len() && v[i].0@ == t,
    ensures
        vocab_map(entries_view(v)) == m,
        entries_view(v).len() == m.len(),
        forall|i: int, j: int|
            0 <= i < j < entries_view(v).len() ==> #[trigger] entries_view(v)[i].0 != #[trigger] entries_view(v)[j].0,
{
    let e = entries_view(v);
    assert forall|i: int, j: int| 0 <= i < j < e.len() implies #[trigger] e[i].0 != #[trigger] e[j].0 by {
        assert(v[i].0@ != v[j].0@);
    }
    lemma_distinct_vocab_map(e);
    assert forall|t: Seq<char>| vocab_map(e).contains_key(t) <==> m.contains_key(t) by {
        if vocab_map(e).contains_key(t) {
            lemma_vocab_source(e, t);
            let j = choose|j: int| 0 <= j < e.len() && e[j].0 == t && vocab_map(e)[t] == e[j].1;
            assert(e[j].0 == v[j].0@);
            assert(m.contains_key(v[j].0@));
        }
        if m.contains_key(t) {
            let i = choose|i: int| 0 <= i < v.len() && v[i].0@ == t;
            assert(e[i].0 == t);
            assert(keeps_entry(e, i));
        }
    }
    assert forall|t: Seq<char>| #[trigger] vocab_map(e).contains_key(t) implies vocab_map(e)[t] == m[t] by {
        assert(m.contains_key(t));
        let i = choose|i: int| 0 <= i < v.len() && v[i].0@ == t;
        assert(keeps_entry(e, i));
        assert(e[i].0 == t);
        assert(m.contains_key(v[i].0@) && m[v[i].0@] == v[i].1);
    }
    assert(vocab_map(e) =~= m);
}

/// The map of `e` holds entry `j` as given.
pub open spec fn keeps_entry(e: Seq<(Seq<char>, usize)>, j: int) -> bool {
    vocab_map(e).contains_key(e[j].0) && vocab_map(e)[e[j].0] == e[j].1
}

/// With distinct tokens, the map holds every entry as given.
proof fn lemma_distinct_vocab_map(e: Seq<(Seq<char>, usize)>)
    requires
        forall|i: int, j: int| 0 <= i < j < e.len() ==> #[trigger] e[i].0 != #[trigger] e[j].0,
    ensures
        forall|j: int| 0 <= j < e.len() ==> #[trigger] keeps_entry(e, j),
    decreases e.len(),
{
    if e.len() > 0 {
        let rest = e.drop_last();
        let last = e.len() - 1;
        assert forall|i: int, j: int| 0 <= i < j < rest.len() implies #[trigger] rest[i].0 != #[trigger] rest[j].0 by {
            assert(e[i].0 != e[j].0);
        }
        lemma_distinct_vocab_map(rest);
        assert(e.last() == e[last]);
        assert forall|j: int| 0 <= j < e.len() implies #[trigger] keeps_entry(e, j) by {
            if j < last {
                assert(keeps_entry(rest, j));
                assert(rest[j] == e[j]);
                assert(e[j].0 != e[last].0);
            }
        }
    }
}

/// A slot of an id that some entry has holds the token of an entry with
/// that id.
proof fn lemma_slot_from_entry(e: Seq<(Seq<char>, usize)>, n: nat, i: int)
    requires
        0 <= i < n,
        exists|j: int| 0 <= j < e.len() && e[j].1 == i,
    ensures
        exists|j: int| 0 <= j < e.len() && e[j].1 == i && id_slots(e, n)[i] == e[j].0,
    decreases e.len(),
{
    lemma_id_slots_len(e, n);
    let last = e.len() - 1;
    assert(e.last() == e[last]);
    lemma_id_slots_len(e.drop_last(), n);
    if e[last].1 == i {
        assert(e[last].1 == i && id_slots(e, n)[i] == e[last].0);
    } else {
        let rest = e.drop_last();
        let j = choose|j: int| 0 <= j < e.len() && e[j].1 == i;
        assert(j != last);
        assert(rest[j].1 == i);
        lemma_id_slots_len(rest, n);
        lemma_slot_from_entry(rest, n, i);
        let k = choose|k: int| 0 <= k < rest.len() && rest[k].1 == i && id_slots(rest, n)[i] == rest[k].0;
        assert(id_slots(e, n)[i] == id_slots(rest, n)[i]);
        assert(e[k] == rest[k]);
    }
}

proof fn lemma_first_out_of_range_exists(e: Seq<(Seq<char>, usize)>, j: int)
    requires
        0 <= j < e.len(),
        e[j].1 >= e.len(),
    ensures
        exists|k: int| is_first_out_of_range_entry(e, k),
    decreases j,
{
    if forall|i: int| 0 <= i < j ==> #[trigger] e[i].1 < e.len() {
        assert(is_first_out_of_range_entry(e, j));
    } else {
        let i = choose|i: int| 0 <= i < j && !(#[trigger] e[i].1 < e.len());
        lemma_first_out_of_range_exists(e, i);
    }
}

proof fn lemma_first_missing_exists(slots: Seq<Seq<char>>, i: int)
    requires
        0 <= i < slots.len(),
        slots[i].len() == 0,
    ensures
        exists|k: int| is_first_missing(slots, k),
    decreases i,
{
    if forall|j: int| 0 <= j < i ==> #[trigger] slots[j].len() > 0 {
        assert(is_first_missing(slots, i));
    } else {
        let j = choose|j: int| 0 <= j < i && !(#[trigger] slots[j].len() > 0);
        lemma_first_missing_exists(slots, j);
    }
}

/// What building a tokenizer from the listed entries of a JSON vocabulary
/// gives, said over the vocabulary's map.
proof fn lemma_vocab_json_outcome(e: Seq<(Seq<char>, usize)>, m: Map<Seq<char>, usize>, r: Result<Gpt2Tokenizer, MiniInferError>)
    requires
        vocab_map(e) == m,
        e.len() == m.len(),
        forall|i: int, j: int| 0 <= i < j < e.len() ==> #[trigger] e[i].0 != #[trigger] e[j].0,
        ({
            let n = e.len();
            if exists|k: int| is_first_out_of_range_entry(e, k) {
                let k = choose|k: int| is_first_out_of_range_entry(e, k);
                r matches Err(MiniInferError::InvalidConfig { message }) && message@
                    == out_of_range_message(e[k].1 as nat, n)
            } else if exists|i: int| is_first_missing(id_slots(e, n), i) {
                let i = choose|i: int| is_first_missing(id_slots(e, n), i);
                r matches Err(MiniInferError::InvalidConfig { message }) && message@
                    == missing_message(i as nat)
            } else if exists|i: int| is_first_unnamed_id(vocab_map(e), id_slots(e, n), i) {
                let i = choose|i: int| is_first_unnamed_id(vocab_map(e), id_slots(e, n), i);
                r matches Err(MiniInferError::InvalidConfig { message }) && message@
                    == duplicate_message(id_slots(e, n)[i])
            } else {
                r matches Ok(t) && t.vocab_view() == vocab_map(e) && t.tokens() == id_slots(e, n)
                    && t.merge_rules() == Map::<(Seq<char>, Seq<char>), usize>::empty()
                    && t.ids_name_tokens() && t.tokens_name_ids()
            }
        }),
    ensures
        if exists|t: Seq<char>| #[trigger] m.contains_key(t) && m[t] >= m.len() {
            r matches Err(MiniInferError::InvalidConfig { message }) && exists|t: Seq<char>|
                #[trigger] m.contains_key(t) && m[t] >= m.len() && message@ == out_of_range_message(
                    m[t] as nat,
                    m.len(),
                )
        } else if !vocab_covers_ids(m) {
            r matches Err(MiniInferError::InvalidConfig { message }) && exists|i: int|
                0 <= i < m.len() && message@ == #[trigger] missing_message(i as nat)
        } else {
            r matches Ok(t) && t.vocab_view() == m && t.tokens().len() == m.len()
                && t.merge_rules() == Map::<(Seq<char>, Seq<char>), usize>::empty()
                && t.ids_name_tokens() && t.tokens_name_ids()
        },
{
    let n = e.len();
    let slots = id_slots(e, n);
    lemma_id_slots_len(e, n);
    lemma_distinct_vocab_map(e);
    if exists|t: Seq<char>| #[trigger] m.contains_key(t) && m[t] >= m.len() {
        let t = choose|t: Seq<char>| #[trigger] m.contains_key(t) && m[t] >= m.len();
        lemma_vocab_source(e, t);
        let j = choose|j: int| 0 <= j < e.len() && e[j].0 == t && vocab_map(e)[t] == e[j].1;
        lemma_first_out_of_range_exists(e, j);
        let k = choose|k: int| is_first_out_of_range_entry(e, k);
        assert(keeps_entry(e, k));
        assert(m.contains_key(e[k].0) && m[e[k].0] == e[k].1);
    } else {
        assert(!exists|k: int| is_first_out_of_range_entry(e, k)) by {
            if exists|k: int| is_first_out_of_range_entry(e, k) {
                let k = choose|k: int| is_first_out_of_range_entry(e, k);
                assert(keeps_entry(e, k));
            }
        }
        // Every filled slot names its id back.
        assert forall|i: int| 0 <= i < n && #[trigger] slots[i].len() > 0 implies names_back(m, slots, i) by {
            lemma_slot_source(e, n, i);
            lemma_slot_from_entry(e, n, i);
            let j = choose|j: int| 0 <= j < e.len() && e[j].1 == i && slots[i] == e[j].0;
            assert(keeps_entry(e, j));
        }
        if vocab_covers_ids(m) {
            assert forall|i: int| 0 <= i < n implies #[trigger] slots[i].len() > 0 by {
                assert(id_has_token(m, i));
                let t = choose|t: Seq<char>| #[trigger] m.contains_key(t) && m[t] == i;
                lemma_vocab_source(e, t);
                lemma_slot_from_entry(e, n, i);
                let j = choose|j: int| 0 <= j < e.len() && e[j].1 == i && slots[i] == e[j].0;
                assert(keeps_entry(e, j));
            }
            assert(!exists|i: int| is_first_missing(slots, i)) by {
                if exists|i: int| is_first_missing(slots, i) {
                    let i = choose|i: int| is_first_missing(slots, i);
                    assert(slots[i].len() > 0);
                }
            }
            assert(!exists|i: int| is_first_unnamed_id(m, slots, i)) by {
                if exists|i: int| is_first_unnamed_id(m, slots, i) {
                    let i = choose|i: int| is_first_unnamed_id(m, slots, i);
                    assert(slots[i].len() > 0);
                }
            }
        } else {
            if exists|i: int| is_first_missing(slots, i) {
            } else {
                assert forall|i: int| 0 <= i < n implies #[trigger] slots[i].len() > 0 by {
                    if slots[i].len() == 0 {
                        lemma_first_missing_exists(slots, i);
                    }
                }
                assert(!exists|i: int| is_first_unnamed_id(m, slots, i)) by {
                    if exists|i: int| is_first_unnamed_id(m, slots, i) {
                        let i = choose|i: int| is_first_unnamed_id(m, slots, i);
                        assert(slots[i].len() > 0);
                    }
                }
                let t = r->Ok_0;
                assert(vocab_covers_ids(m)) by {
                    assert forall|tok: Seq<char>| #[trigger] m.contains_key(tok) implies tok.len() > 0 by {
                        assert(t.vocab_view().contains_key(tok));
                        assert(slots[m[tok] as int].len() > 0);
                    }
                    assert forall|i: int| 0 <= i < m.len() implies #[trigger] id_has_token(m, i) by {
                        assert(t.vocab_view().contains_key(t.tokens()[i]));
                        assert(m.contains_key(slots[i]) && m[slots[i]] == i);
                    }
                }
            }
        }
    }
}

} // verus!
