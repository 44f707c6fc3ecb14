use vstd::prelude::*;

verus! {

/// The 256 bytewords, four letters each, in the order of the byte values they stand for.
/// A proof about particular words reveals this literal with `reveal_strlit`; what holds
/// of all the words is stated by `lemma_dictionary`.
pub const WORDS: &'static str = "ableacidalsoapexaquaarchatomauntawayaxisbackbaldbarnbeltbetabiasbluebodybragbrewbulbbuzzcalmcashcatschefcityclawcodecolacookcostcruxcurlcuspcyandarkdatadaysdelidicedietdoordowndrawdropdrumdulldutyeacheasyechoedgeepicevenexamexiteyesfactfairfernfigsfilmfishfizzflapflewfluxfoxyfreefrogfuelfundgalagamegeargemsgiftgirlglowgoodgraygrimgurugushgyrohalfhanghardhawkheathelphighhillholyhopehornhutsicedideaidleinchinkyintoirisironitemjadejazzjoinjoltjowljudojugsjumpjunkjurykeepkenokeptkeyskickkilnkingkitekiwiknoblamblavalazyleaflegsliarlimplionlistlogoloudloveluaulucklungmainmanymathmazememomenumeowmildmintmissmonknailnavyneednewsnextnoonnotenumbobeyoboeomitonyxopenovalowlspaidpartpeckplaypluspoempoolposepuffpumapurrquadquizraceramprealredorichroadrockroofrubyruinrunsrustsafesagascarsetssilkskewslotsoapsolosongstubsurfswantacotasktaxitenttiedtimetinytoiltombtoystriptunatwinuglyundouniturgeuservastveryvetovialvibeviewvisavoidvowswallwandwarmwaspwavewaxywebswhatwhenwhizwolfworkyankyawnyellyogayurtzapszerozestzinczonezoom";

/// Number of words in the dictionary: one for every byte value.
pub const BYTEWORDS_NUM: usize = 256;

/// Letters in a full byteword.
pub const BYTEWORD_LENGTH: usize = 4;

/// Letters in a minimal word: the first and the last letter of a byteword.
pub const MINIMAL_BYTEWORD_LENGTH: usize = 2;

/// Letters of the alphabet; the reverse lookup table has `DIM * DIM` slots.
pub const DIM: usize = 26;

/// Whether a character is a lowercase letter of the alphabet.
pub open spec fn is_letter(c: char) -> bool {
    'a' <= c && c <= 'z'
}

/// Position of a lowercase letter in the alphabet, `'a'` being 0.
pub open spec fn letter_index(c: char) -> int {
    c as int - 'a' as int
}

/// The full word for a byte value.
pub open spec fn word_at(index: int) -> Seq<char> {
    WORDS@.subrange(4 * index, 4 * index + 4)
}

/// The minimal word for a byte value: its full word without the two interior letters.
pub open spec fn minimal_word_at(index: int) -> Seq<char> {
    word_at(index).take(1) + word_at(index).skip(3)
}

/// The slot of the reverse lookup table that belongs to a pair of first and last letter.
pub open spec fn slot(first: char, last: char) -> int {
    letter_index(last) * 26 + letter_index(first)
}

/// The slot of the reverse lookup table that the word of a byte value occupies.
pub open spec fn slot_of(index: int) -> int {
    slot(word_at(index)[0], word_at(index)[3])
}

/// What the dictionary data guarantees: 256 words of four lowercase letters, no two of
/// which agree in both their first and their last letter.
pub proof fn lemma_dictionary()
    ensures
        WORDS@.len() == 1024,
        WORDS.is_ascii(),
        forall|i: int| 0 <= i < 1024 ==> is_letter(#[trigger] WORDS@[i]),
        forall|i: int, j: int|
            0 <= i < 256 && 0 <= j < 256 && #[trigger] slot_of(i) == #[trigger] slot_of(j) ==> i
                == j,
{
    reveal_strlit("ableacidalsoapexaquaarchatomauntawayaxisbackbaldbarnbeltbetabiasbluebodybragbrewbulbbuzzcalmcashcatschefcityclawcodecolacookcostcruxcurlcuspcyandarkdatadaysdelidicedietdoordowndrawdropdrumdulldutyeacheasyechoedgeepicevenexamexiteyesfactfairfernfigsfilmfishfizzflapflewfluxfoxyfreefrogfuelfundgalagamegeargemsgiftgirlglowgoodgraygrimgurugushgyrohalfhanghardhawkheathelphighhillholyhopehornhutsicedideaidleinchinkyintoirisironitemjadejazzjoinjoltjowljudojugsjumpjunkjurykeepkenokeptkeyskickkilnkingkitekiwiknoblamblavalazyleaflegsliarlimplionlistlogoloudloveluaulucklungmainmanymathmazememomenumeowmildmintmissmonknailnavyneednewsnextnoonnotenumbobeyoboeomitonyxopenovalowlspaidpartpeckplaypluspoempoolposepuffpumapurrquadquizraceramprealredorichroadrockroofrubyruinrunsrustsafesagascarsetssilkskewslotsoapsolosongstubsurfswantacotasktaxitenttiedtimetinytoiltombtoystriptunatwinuglyundouniturgeuservastveryvetovialvibeviewvisavoidvowswallwandwarmwaspwavewaxywebswhatwhenwhizwolfworkyankyawnyellyogayurtzapszerozestzinczonezoom");
}

/// The full four-letter word for a byte value.
pub fn get_word(index: usize) -> (word: String)
    requires
        index < BYTEWORDS_NUM,
    ensures
        word@ == word_at(index as int),
{
    proof {
        lemma_dictionary();
    }
    let start = index * BYTEWORD_LENGTH;
    String::from_str(WORDS.substring_ascii(start, start + BYTEWORD_LENGTH))
}

/// The two-letter abbreviation for a byte value.
pub fn get_minimal_word(index: usize) -> (word: String)
    requires
        index < BYTEWORDS_NUM,
    ensures
        word@ == minimal_word_at(index as int),
{
    proof {
        lemma_dictionary();
    }
    let start = index * BYTEWORD_LENGTH;
    let mut byteword = String::from_str(WORDS.substring_ascii(start, start + 1));
    byteword.append(WORDS.substring_ascii(start + 3, start + BYTEWORD_LENGTH));
    assert(byteword@ =~= minimal_word_at(index as int));
    byteword
}

/// Whether the word of byte value `index` begins with `first` and ends with `last`.
pub open spec fn has_ends(index: int, first: char, last: char) -> bool {
    0 <= index < 256 && word_at(index)[0] == first && word_at(index)[3] == last
}

/// The byte value whose word begins with `first` and ends with `last`, if there is one.
pub open spec fn lookup(first: char, last: char) -> Option<u8> {
    if exists|index: int| has_ends(index, first, last) {
        Some((choose|index: int| has_ends(index, first, last)) as u8)
    } else {
        None
    }
}

/// A pair of letters that ends some word is looked up as that word's byte value.
pub proof fn lemma_lookup_unique(index: int, first: char, last: char)
    requires
        has_ends(index, first, last),
    ensures
        lookup(first, last) == Some(index as u8),
{
    lemma_dictionary();
    let found = choose|other: int| has_ends(other, first, last);
    assert(slot_of(found) == slot_of(index));
}

/// The letter at a position of the alphabet.
pub open spec fn letter(position: int) -> char {
    ('a' as int + position) as char
}

/// What the reverse lookup table holds in slot `k`: the byte value of the word that has
/// the slot's pair of letters, or -1 where no word has it.
pub open spec fn table_entry(k: int) -> i32 {
    match lookup(letter(k % 26), letter(k / 26)) {
        Some(value) => value as i32,
        None => -1i32,
    }
}

/// The reverse lookup table: one entry for every pair of first and last letter.
pub open spec fn table_spec() -> Seq<i32> {
    Seq::new(676, |k: int| table_entry(k))
}

/// While the table is built: what slot `k` holds once the first `done` words are entered.
spec fn entered(value: i32, k: int, done: int) -> bool {
    ||| value == -1 && forall|index: int| 0 <= index < done ==> #[trigger] slot_of(index) != k
    ||| 0 <= value < done && slot_of(value as int) == k
}

proof fn lemma_entered_all(value: i32, k: int)
    requires
        0 <= k < 676,
        entered(value, k, 256),
    ensures
        value == table_entry(k),
{
    lemma_dictionary();
    let first = letter(k % 26);
    let last = letter(k / 26);
    assert(letter_index(first) == k % 26);
    assert(letter_index(last) == k / 26);
    assert(slot(first, last) == k);
    if value == -1 {
        assert forall|index: int| !has_ends(index, first, last) by {
            if has_ends(index, first, last) {
                assert(slot_of(index) == k);
            }
        }
    } else {
        let index = value as int;
        assert(is_letter(WORDS@[4 * index]));
        assert(is_letter(WORDS@[4 * index + 3]));
        assert(has_ends(index, first, last));
        lemma_lookup_unique(index, first, last);
    }
}

/// The reverse lookup table, from a pair of first and last letter to the byte value.
pub struct LookupTable {
    slots: Vec<i32>,
}

impl View for LookupTable {
    type V = Seq<i32>;

    closed spec fn view(&self) -> Seq<i32> {
        self.slots@
    }
}

impl LookupTable {
    #[verifier::type_invariant]
    spec fn well_formed(&self) -> bool {
        self.slots@ == table_spec()
    }

    /// Builds the table from the dictionary.
    pub fn new() -> (table: LookupTable)
        ensures
            table@ == table_spec(),
    {
        let mut slots: Vec<i32> = Vec::new();
        let mut k: usize = 0;
        while k < DIM * DIM
            invariant
                k <= 676,
                slots@.len() == k,
                forall|j: int| 0 <= j < k ==> slots@[j] == -1,
            decreases 676 - k,
        {
            slots.push(-1);
            k += 1;
        }
        proof {
            lemma_dictionary();
        }
        let mut i: usize = 0;
        while i < BYTEWORDS_NUM
            invariant
                i <= 256,
                slots@.len() == 676,
                WORDS@.len() == 1024,
                WORDS.is_ascii(),
                forall|j: int| 0 <= j < 1024 ==> is_letter(#[trigger] WORDS@[j]),
                forall|j: int| 0 <= j < 676 ==> entered(#[trigger] slots@[j], j, i as int),
            decreases 256 - i,
        {
            let first = WORDS.get_ascii(4 * i);
            let last = WORDS.get_ascii(4 * i + 3);
            assert(is_letter(WORDS@[4 * i as int]));
            assert(is_letter(WORDS@[4 * i + 3]));
            let x = (first - 'a' as u8) as usize;
            let y = (last - 'a' as u8) as usize;
            let offset = y * DIM + x;
            assert(offset == slot_of(i as int));
            slots.set(offset, i as i32);
            i += 1;
        }
        proof {
            assert forall|j: int| 0 <= j < 676 implies slots@[j] == table_entry(j) by {
                lemma_entered_all(slots@[j], j);
            }
            assert(slots@ =~= table_spec());
        }
        LookupTable { slots }
    }

    /// The byte value whose word begins with `first` and ends with `last`. There is none
    /// where one of the two is no lowercase letter.
    pub fn get(&self, first: char, last: char) -> (value: Option<u8>)
        ensures
            value == lookup(first, last),
    {
        if !('a' <= first && first <= 'z' && 'a' <= last && last <= 'z') {
            proof {
                lemma_dictionary();
                assert forall|index: int| !has_ends(index, first, last) by {
                    if 0 <= index < 256 {
                        assert(is_letter(WORDS@[4 * index]));
                        assert(is_letter(WORDS@[4 * index + 3]));
                    }
                }
            }
            return None;
        }
        proof {
            use_type_invariant(&self);
        }
        let x = first as usize - 'a' as usize;
        let y = last as usize - 'a' as usize;
        let offset = y * DIM + x;
        assert(first == letter(offset as int % 26));
        assert(last == letter(offset as int / 26));
        let entry = self.slots[offset];
        if entry == -1 {
            None
        } else {
            Some(entry as u8)
        }
    }
}

} // verus!
