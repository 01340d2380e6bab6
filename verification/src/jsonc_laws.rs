//! What stripping does to a well-formed document: its comments and trailing
//! commas go, and nothing else.

use vstd::prelude::*;

use crate::jsonc;
use crate::text;

verus! {

/// What may stand between two tokens.
pub ghost enum Trivia {
    /// A white space character.
    Space(char),
    /// A line comment: what stands between `//` and the end of the line.
    Line(Seq<char>),
    /// A block comment: what stands between `/*` and `*/`.
    Block(Seq<char>),
}

/// A JSON value as it is written, with what stands between its tokens.
pub ghost enum Doc {
    /// A number, `true`, `false` or `null`.
    Scalar(Seq<char>),
    /// A string: what follows its opening quote.
    Text(Seq<char>),
    /// An object or an array: its entries, whether a comma follows the last one,
    /// and what stands before the closing bracket.
    Group { object: bool, entries: Seq<Entry>, comma: bool, gap: Seq<Trivia> },
}

/// A member of an object or an element of an array.
pub ghost struct Entry {
    pub before: Seq<Trivia>,
    pub key: Option<Key>,
    pub value: Doc,
    pub after: Seq<Trivia>,
}

/// The name of a member: what follows its opening quote, and what stands before
/// and behind the colon.
pub ghost struct Key {
    pub body: Seq<char>,
    pub before_colon: Seq<Trivia>,
    pub after_colon: Seq<Trivia>,
}

/// A file that holds one value. A line comment may end it without a line end.
pub ghost struct Page {
    pub before: Seq<Trivia>,
    pub doc: Doc,
    pub after: Seq<Trivia>,
    pub ending: Option<Seq<char>>,
}

/// Whether a character can stand in a number or a word.
pub open spec fn token_char(c: char) -> bool {
    &&& !text::white(c)
    &&& c != '"' && c != '/' && c != ',' && c != ':'
    &&& c != '{' && c != '}' && c != '[' && c != ']'
}

/// Whether a character is white space between the tokens of JSON.
pub open spec fn json_space(c: char) -> bool {
    c == ' ' || c == '\t' || c == '\n' || c == '\r'
}

/// Whether white space is white space, and comments end where they end.
pub open spec fn sound_gap(gap: Seq<Trivia>) -> bool {
    forall|i: int|
        0 <= i < gap.len() ==> match #[trigger] gap[i] {
            Trivia::Space(c) => json_space(c),
            Trivia::Line(comment) => !comment.contains('\n'),
            Trivia::Block(comment) => jsonc::no_block_end(comment),
        }
}

/// Whether a document is well-formed.
pub open spec fn well_formed(doc: Doc) -> bool
    decreases doc,
{
    match doc {
        Doc::Scalar(s) => s.len() > 0 && forall|i: int|
            0 <= i < s.len() ==> token_char(#[trigger] s[i]),
        Doc::Text(body) => jsonc::literal_body(body),
        Doc::Group { object, entries, comma, gap } => {
            &&& comma ==> entries.len() > 0
            &&& sound_gap(gap)
            &&& forall|i: int|
                0 <= i < entries.len() ==> {
                    &&& sound_entry(#[trigger] entries[i], object)
                    &&& well_formed(entries[i].value)
                }
        },
    }
}

/// Whether what stands around the value of an entry is well-formed.
pub open spec fn sound_entry(entry: Entry, object: bool) -> bool {
    &&& sound_gap(entry.before)
    &&& sound_gap(entry.after)
    &&& object == (entry.key is Some)
    &&& entry.key matches Some(key) ==> {
        &&& jsonc::literal_body(key.body)
        &&& sound_gap(key.before_colon)
        &&& sound_gap(key.after_colon)
    }
}

/// Whether a file is well-formed.
pub open spec fn sound_page(page: Page) -> bool {
    &&& sound_gap(page.before)
    &&& well_formed(page.doc)
    &&& sound_gap(page.after)
    &&& page.ending matches Some(comment) ==> !comment.contains('\n')
}

/// The text of a piece between tokens, with comments or without. The line end
/// behind a line comment belongs to it and stays.
pub open spec fn trivia_text(trivia: Trivia, comments: bool) -> Seq<char> {
    match trivia {
        Trivia::Space(c) => seq![c],
        Trivia::Line(comment) => if comments {
            seq!['/', '/'] + comment + seq!['\n']
        } else {
            seq!['\n']
        },
        Trivia::Block(comment) => if comments {
            seq!['/', '*'] + comment + seq!['*', '/']
        } else {
            Seq::empty()
        },
    }
}

/// The text of what stands between two tokens.
pub open spec fn gap_text(gap: Seq<Trivia>, comments: bool) -> Seq<char>
    decreases gap.len(),
{
    if gap.len() == 0 {
        Seq::empty()
    } else {
        trivia_text(gap[0], comments) + gap_text(gap.skip(1), comments)
    }
}

/// The text of a member's name, its colon and what stands around that.
pub open spec fn key_text(key: Option<Key>, comments: bool) -> Seq<char> {
    match key {
        Some(key) => (seq!['"'] + key.body) + gap_text(key.before_colon, comments) + seq![':']
            + gap_text(key.after_colon, comments),
        None => Seq::empty(),
    }
}

/// The text of a value, with comments or without, and with the commas behind
/// last entries or without.
pub open spec fn doc_text(doc: Doc, comments: bool, commas: bool) -> Seq<char>
    decreases doc,
{
    match doc {
        Doc::Scalar(s) => s,
        Doc::Text(body) => seq!['"'] + body,
        Doc::Group { object, entries, comma, gap } => seq![
            if object {
                '{'
            } else {
                '['
            },
        ] + entries_text(entries, comments, commas) + end_text(
            object,
            comma && commas,
            gap,
            comments,
        ),
    }
}

/// The end of an object or an array.
pub open spec fn end_text(object: bool, comma: bool, gap: Seq<Trivia>, comments: bool) -> Seq<
    char,
> {
    (if comma {
        seq![',']
    } else {
        Seq::empty()
    }) + (gap_text(gap, comments) + seq![
        if object {
            '}'
        } else {
            ']'
        },
    ])
}

/// Entries with commas between them.
pub open spec fn entries_text(entries: Seq<Entry>, comments: bool, commas: bool) -> Seq<char>
    decreases entries,
{
    if entries.len() == 0 {
        Seq::empty()
    } else if entries.len() == 1 {
        entry_text(entries[0], comments, commas)
    } else {
        entry_text(entries[0], comments, commas) + (seq![','] + entries_text(
            entries.subrange(1, entries.len() as int),
            comments,
            commas,
        ))
    }
}

/// The text of an entry.
pub open spec fn entry_text(entry: Entry, comments: bool, commas: bool) -> Seq<char>
    decreases entry,
{
    gap_text(entry.before, comments) + key_text(entry.key, comments) + doc_text(
        entry.value,
        comments,
        commas,
    ) + gap_text(entry.after, comments)
}

/// The text of a file.
pub open spec fn page_text(page: Page, comments: bool, commas: bool) -> Seq<char> {
    gap_text(page.before, comments) + doc_text(page.doc, comments, commas) + gap_text(
        page.after,
        comments,
    ) + (match page.ending {
        Some(comment) => if comments {
            seq!['/', '/'] + comment
        } else {
            Seq::empty()
        },
        None => Seq::empty(),
    })
}

/// A value without the way it is written: numbers, words and string literals as
/// they stand, elements and members in their order.
pub ghost enum Meaning {
    Scalar(Seq<char>),
    Text(Seq<char>),
    Array(Seq<Meaning>),
    Object(Seq<(Seq<char>, Meaning)>),
}

/// The value that a document denotes.
pub open spec fn meaning(doc: Doc) -> Meaning
    decreases doc,
{
    match doc {
        Doc::Scalar(s) => Meaning::Scalar(s),
        Doc::Text(body) => Meaning::Text(body),
        Doc::Group { object, entries, comma, gap } => if object {
            Meaning::Object(members(entries))
        } else {
            Meaning::Array(elements(entries))
        },
    }
}

/// The values of an array's entries.
pub open spec fn elements(entries: Seq<Entry>) -> Seq<Meaning>
    decreases entries,
{
    if entries.len() == 0 {
        Seq::empty()
    } else {
        seq![meaning(entries[0].value)] + elements(entries.subrange(1, entries.len() as int))
    }
}

/// The names and values of an object's entries.
pub open spec fn members(entries: Seq<Entry>) -> Seq<(Seq<char>, Meaning)>
    decreases entries,
{
    if entries.len() == 0 {
        Seq::empty()
    } else {
        seq![(entries[0].key->Some_0.body, meaning(entries[0].value))] + members(
            entries.subrange(1, entries.len() as int),
        )
    }
}

/// What is left between two tokens when comments go.
pub open spec fn bare_gap(gap: Seq<Trivia>) -> Seq<Trivia>
    decreases gap.len(),
{
    if gap.len() == 0 {
        Seq::empty()
    } else {
        (match gap[0] {
            Trivia::Space(c) => seq![Trivia::Space(c)],
            Trivia::Line(_) => seq![Trivia::Space('\n')],
            Trivia::Block(_) => Seq::empty(),
        }) + bare_gap(gap.skip(1))
    }
}

/// A document without its comments and trailing commas.
pub open spec fn bare(doc: Doc) -> Doc
    decreases doc,
{
    match doc {
        Doc::Group { object, entries, comma, gap } => Doc::Group {
            object,
            entries: bare_entries(entries),
            comma: false,
            gap: bare_gap(gap),
        },
        _ => doc,
    }
}

/// Entries without their comments and trailing commas.
pub open spec fn bare_entries(entries: Seq<Entry>) -> Seq<Entry>
    decreases entries,
{
    if entries.len() == 0 {
        Seq::empty()
    } else {
        let first = entries[0];
        seq![
            Entry {
                before: bare_gap(first.before),
                key: match first.key {
                    Some(key) => Some(
                        Key {
                            body: key.body,
                            before_colon: bare_gap(key.before_colon),
                            after_colon: bare_gap(key.after_colon),
                        },
                    ),
                    None => None,
                },
                value: bare(entries[0].value),
                after: bare_gap(first.after),
            },
        ] + bare_entries(entries.subrange(1, entries.len() as int))
    }
}

/// A file without its comments and trailing commas.
pub open spec fn bare_page(page: Page) -> Page {
    Page {
        before: bare_gap(page.before),
        doc: bare(page.doc),
        after: bare_gap(page.after),
        ending: None,
    }
}

/// Whether only white space stands between two tokens.
pub open spec fn plain_gap(gap: Seq<Trivia>) -> bool {
    forall|i: int| 0 <= i < gap.len() ==> #[trigger] gap[i] is Space
}

/// Whether a document is plain JSON: no comments and no trailing commas.
pub open spec fn plain(doc: Doc) -> bool
    decreases doc,
{
    match doc {
        Doc::Group { object, entries, comma, gap } => {
            &&& !comma
            &&& plain_gap(gap)
            &&& forall|i: int|
                0 <= i < entries.len() ==> {
                    &&& plain_entry(#[trigger] entries[i])
                    &&& plain(entries[i].value)
                }
        },
        _ => true,
    }
}

/// Whether only white space stands around the value of an entry.
pub open spec fn plain_entry(entry: Entry) -> bool {
    &&& plain_gap(entry.before)
    &&& plain_gap(entry.after)
    &&& entry.key matches Some(key) ==> plain_gap(key.before_colon) && plain_gap(key.after_colon)
}

/// Whether a file is plain JSON.
pub open spec fn plain_page(page: Page) -> bool {
    plain_gap(page.before) && plain(page.doc) && plain_gap(page.after) && page.ending is None
}

proof fn bare_gap_is_plain(gap: Seq<Trivia>, comments: bool)
    requires
        sound_gap(gap),
    ensures
        sound_gap(bare_gap(gap)),
        plain_gap(bare_gap(gap)),
        gap_text(bare_gap(gap), comments) == gap_text(gap, false),
    decreases gap.len(),
{
    if gap.len() > 0 {
        sound_gap_parts(gap);
        let more = bare_gap(gap.skip(1));
        let all = bare_gap(gap);
        bare_gap_is_plain(gap.skip(1), comments);
        assert(seq![gap[0]][0] == gap[0]);
        if gap[0] is Block {
            assert(all =~= more);
            assert(gap_text(gap, false) =~= gap_text(gap.skip(1), false));
        } else {
            assert(all.skip(1) =~= more);
            assert forall|i: int| 0 <= i < all.len() implies (#[trigger] all[i] is Space)
                && json_space(all[i]->Space_0) by {
                if i > 0 {
                    assert(all[i] == more[i - 1]);
                }
            }
        }
    }
}

proof fn bare_entries_are_plain(
    entries: Seq<Entry>,
    object: bool,
    comments: bool,
    commas: bool,
)
    requires
        forall|i: int|
            0 <= i < entries.len() ==> {
                &&& sound_entry(#[trigger] entries[i], object)
                &&& well_formed(entries[i].value)
            },
    ensures
        bare_entries(entries).len() == entries.len(),
        forall|i: int|
            0 <= i < entries.len() ==> {
                &&& sound_entry(#[trigger] bare_entries(entries)[i], object)
                &&& well_formed(bare_entries(entries)[i].value)
                &&& plain_entry(bare_entries(entries)[i])
                &&& plain(bare_entries(entries)[i].value)
            },
        elements(bare_entries(entries)) == elements(entries),
        object ==> members(bare_entries(entries)) == members(entries),
        entries_text(bare_entries(entries), comments, commas) == entries_text(
            entries,
            false,
            false,
        ),
    decreases entries,
{
    if entries.len() > 0 {
        let more = entries.subrange(1, entries.len() as int);
        let all = bare_entries(entries);
        let first = entries[0];
        assert(sound_entry(first, object));
        assert forall|i: int| 0 <= i < more.len() implies {
            &&& sound_entry(#[trigger] more[i], object)
            &&& well_formed(more[i].value)
        } by {
            assert(entries[i + 1] == more[i]);
        }
        bare_entries_are_plain(more, object, comments, commas);
        assert(all.subrange(1, all.len() as int) =~= bare_entries(more));
        bare_gap_is_plain(first.before, comments);
        bare_gap_is_plain(first.after, comments);
        if let Some(key) = first.key {
            bare_gap_is_plain(key.before_colon, comments);
            bare_gap_is_plain(key.after_colon, comments);
        }
        assert(decreases_to!(entries => entries[0]));
        assert(decreases_to!(entries[0] => entries[0].value));
        bare_is_plain(entries[0].value, comments, commas);
        assert forall|i: int| 0 <= i < entries.len() implies {
            &&& sound_entry(#[trigger] all[i], object)
            &&& well_formed(all[i].value)
            &&& plain_entry(all[i])
            &&& plain(all[i].value)
        } by {
            if i > 0 {
                assert(all[i] == bare_entries(more)[i - 1]);
            }
        }
        assert(entry_text(all[0], comments, commas) == entry_text(first, false, false));
    }
}

proof fn bare_is_plain(doc: Doc, comments: bool, commas: bool)
    requires
        well_formed(doc),
    ensures
        well_formed(bare(doc)),
        plain(bare(doc)),
        meaning(bare(doc)) == meaning(doc),
        doc_text(bare(doc), comments, commas) == doc_text(doc, false, false),
    decreases doc,
{
    if let Doc::Group { object, entries, comma, gap } = doc {
        bare_entries_are_plain(entries, object, comments, commas);
        bare_gap_is_plain(gap, comments);
        let all = bare_entries(entries);
        assert forall|i: int| 0 <= i < all.len() implies {
            &&& sound_entry(#[trigger] all[i], object)
            &&& well_formed(all[i].value)
            &&& plain_entry(all[i])
            &&& plain(all[i].value)
        } by {}
    }
}

/// Whether `x` loses its comments to become `y`, whatever follows.
spec fn uncomments(x: Seq<char>, y: Seq<char>) -> bool {
    forall|rest: Seq<char>|
        #[trigger] jsonc::without_comments(x + rest) == y + jsonc::without_comments(rest)
}

proof fn uncomments_in_turn(x: Seq<char>, y: Seq<char>, more: Seq<char>, left: Seq<char>)
    requires
        uncomments(x, y),
        uncomments(more, left),
    ensures
        uncomments(x + more, y + left),
{
    assert forall|rest: Seq<char>|
        #[trigger] jsonc::without_comments((x + more) + rest) == (y + left)
            + jsonc::without_comments(rest) by {
        assert((x + more) + rest =~= x + (more + rest));
        assert(jsonc::without_comments(x + (more + rest)) == y + jsonc::without_comments(
            more + rest,
        ));
        assert(y + (left + jsonc::without_comments(rest)) =~= (y + left)
            + jsonc::without_comments(rest));
    }
}

proof fn nothing_uncomments()
    ensures
        uncomments(Seq::empty(), Seq::empty()),
{
    assert forall|rest: Seq<char>|
        #[trigger] jsonc::without_comments(Seq::<char>::empty() + rest) == Seq::<char>::empty()
            + jsonc::without_comments(rest) by {
        assert(Seq::<char>::empty() + rest =~= rest);
        assert(Seq::<char>::empty() + jsonc::without_comments(rest) =~= jsonc::without_comments(
            rest,
        ));
    }
}

proof fn other_char_uncomments(c: char)
    requires
        c != '"',
        c != '/',
    ensures
        uncomments(seq![c], seq![c]),
{
    assert forall|rest: Seq<char>|
        #[trigger] jsonc::without_comments(seq![c] + rest) == seq![c] + jsonc::without_comments(
            rest,
        ) by {
        assert((seq![c] + rest).skip(1) =~= rest);
        assert((seq![c] + rest)[0] == c);
    }
}

proof fn literal_uncomments(body: Seq<char>)
    requires
        jsonc::literal_body(body),
    ensures
        uncomments(seq!['"'] + body, seq!['"'] + body),
{
    assert forall|rest: Seq<char>|
        #[trigger] jsonc::without_comments((seq!['"'] + body) + rest) == (seq!['"'] + body)
            + jsonc::without_comments(rest) by {
        jsonc::law_literals_are_kept(body, rest);
    }
}

proof fn token_uncomments(s: Seq<char>)
    requires
        forall|i: int| 0 <= i < s.len() ==> token_char(#[trigger] s[i]),
    ensures
        uncomments(s, s),
    decreases s.len(),
{
    if s.len() == 0 {
        assert(s =~= Seq::empty());
        nothing_uncomments();
    } else {
        let more = s.skip(1);
        assert forall|i: int| 0 <= i < more.len() implies token_char(#[trigger] more[i]) by {
            assert(s[i + 1] == more[i]);
        }
        assert(token_char(s[0]));
        token_uncomments(more);
        other_char_uncomments(s[0]);
        uncomments_in_turn(seq![s[0]], seq![s[0]], more, more);
        assert(seq![s[0]] + more =~= s);
    }
}

proof fn trivia_uncomments(trivia: Trivia, comments: bool)
    requires
        sound_gap(seq![trivia]),
    ensures
        uncomments(trivia_text(trivia, comments), trivia_text(trivia, false)),
{
    assert(seq![trivia][0] == trivia);
    let x = trivia_text(trivia, comments);
    match trivia {
        Trivia::Space(c) => {
            other_char_uncomments(c);
        },
        Trivia::Line(comment) => {
            other_char_uncomments('\n');
            if comments {
                assert forall|rest: Seq<char>|
                    #[trigger] jsonc::without_comments(x + rest) == seq!['\n']
                        + jsonc::without_comments(rest) by {
                    jsonc::law_line_comment_goes(comment, seq!['\n'] + rest);
                    assert(x + rest =~= seq!['/', '/'] + comment + (seq!['\n'] + rest));
                }
            }
        },
        Trivia::Block(comment) => {
            nothing_uncomments();
            if comments {
                assert forall|rest: Seq<char>|
                    #[trigger] jsonc::without_comments(x + rest) == Seq::<char>::empty()
                        + jsonc::without_comments(rest) by {
                    jsonc::law_block_comment_goes(comment, rest);
                    assert(Seq::<char>::empty() + jsonc::without_comments(rest)
                        =~= jsonc::without_comments(rest));
                }
            }
        },
    }
}

proof fn sound_gap_parts(gap: Seq<Trivia>)
    requires
        sound_gap(gap),
        gap.len() > 0,
    ensures
        sound_gap(seq![gap[0]]),
        sound_gap(gap.skip(1)),
{
    let more = gap.skip(1);
    assert forall|i: int| 0 <= i < more.len() implies match #[trigger] more[i] {
        Trivia::Space(c) => json_space(c),
        Trivia::Line(comment) => !comment.contains('\n'),
        Trivia::Block(comment) => jsonc::no_block_end(comment),
    } by {
        assert(gap[i + 1] == more[i]);
    }
}

proof fn gap_uncomments(gap: Seq<Trivia>, comments: bool)
    requires
        sound_gap(gap),
    ensures
        uncomments(gap_text(gap, comments), gap_text(gap, false)),
    decreases gap.len(),
{
    if gap.len() == 0 {
        nothing_uncomments();
    } else {
        sound_gap_parts(gap);
        trivia_uncomments(gap[0], comments);
        gap_uncomments(gap.skip(1), comments);
        uncomments_in_turn(
            trivia_text(gap[0], comments),
            trivia_text(gap[0], false),
            gap_text(gap.skip(1), comments),
            gap_text(gap.skip(1), false),
        );
    }
}

proof fn key_uncomments(key: Option<Key>, comments: bool)
    requires
        key matches Some(key) ==> {
            &&& jsonc::literal_body(key.body)
            &&& sound_gap(key.before_colon)
            &&& sound_gap(key.after_colon)
        },
    ensures
        uncomments(key_text(key, comments), key_text(key, false)),
{
    match key {
        Some(key) => {
            let name = seq!['"'] + key.body;
            let x = gap_text(key.before_colon, comments);
            let y = gap_text(key.before_colon, false);
            literal_uncomments(key.body);
            gap_uncomments(key.before_colon, comments);
            uncomments_in_turn(name, name, x, y);
            other_char_uncomments(':');
            uncomments_in_turn(name + x, name + y, seq![':'], seq![':']);
            gap_uncomments(key.after_colon, comments);
            uncomments_in_turn(
                name + x + seq![':'],
                name + y + seq![':'],
                gap_text(key.after_colon, comments),
                gap_text(key.after_colon, false),
            );
        },
        None => {
            nothing_uncomments();
        },
    }
}

proof fn doc_uncomments(doc: Doc, comments: bool, commas: bool)
    requires
        well_formed(doc),
    ensures
        uncomments(doc_text(doc, comments, commas), doc_text(doc, false, commas)),
    decreases doc,
{
    match doc {
        Doc::Scalar(s) => {
            token_uncomments(s);
        },
        Doc::Text(body) => {
            literal_uncomments(body);
        },
        Doc::Group { object, entries, comma, gap } => {
            let open = seq![
                if object {
                    '{'
                } else {
                    '['
                },
            ];
            let x = entries_text(entries, comments, commas);
            let y = entries_text(entries, false, commas);
            other_char_uncomments(open[0]);
            entries_uncomment(entries, object, comments, commas);
            uncomments_in_turn(open, open, x, y);
            end_uncomments(object, comma && commas, gap, comments);
            uncomments_in_turn(
                open + x,
                open + y,
                end_text(object, comma && commas, gap, comments),
                end_text(object, comma && commas, gap, false),
            );
        },
    }
}

proof fn end_uncomments(object: bool, comma: bool, gap: Seq<Trivia>, comments: bool)
    requires
        sound_gap(gap),
    ensures
        uncomments(
            end_text(object, comma, gap, comments),
            end_text(object, comma, gap, false),
        ),
{
    let close = seq![
        if object {
            '}'
        } else {
            ']'
        },
    ];
    let x = gap_text(gap, comments);
    let y = gap_text(gap, false);
    gap_uncomments(gap, comments);
    other_char_uncomments(close[0]);
    uncomments_in_turn(x, y, close, close);
    let sign = if comma {
        seq![',']
    } else {
        Seq::empty()
    };
    nothing_uncomments();
    other_char_uncomments(',');
    uncomments_in_turn(sign, sign, x + close, y + close);
}

proof fn entries_uncomment(entries: Seq<Entry>, object: bool, comments: bool, commas: bool)
    requires
        forall|i: int|
            0 <= i < entries.len() ==> {
                &&& sound_entry(#[trigger] entries[i], object)
                &&& well_formed(entries[i].value)
            },
    ensures
        uncomments(entries_text(entries, comments, commas), entries_text(entries, false, commas)),
    decreases entries,
{
    if entries.len() == 0 {
        nothing_uncomments();
    } else {
        assert(sound_entry(entries[0], object));
        entry_uncomments(entries[0], object, comments, commas);
        if entries.len() > 1 {
            let more = entries.subrange(1, entries.len() as int);
            assert forall|i: int| 0 <= i < more.len() implies {
                &&& sound_entry(#[trigger] more[i], object)
                &&& well_formed(more[i].value)
            } by {
                assert(entries[i + 1] == more[i]);
            }
            entries_uncomment(more, object, comments, commas);
            other_char_uncomments(',');
            let x = entries_text(more, comments, commas);
            let y = entries_text(more, false, commas);
            uncomments_in_turn(seq![','], seq![','], x, y);
            uncomments_in_turn(
                entry_text(entries[0], comments, commas),
                entry_text(entries[0], false, commas),
                seq![','] + x,
                seq![','] + y,
            );
        }
    }
}

proof fn entry_uncomments(entry: Entry, object: bool, comments: bool, commas: bool)
    requires
        sound_entry(entry, object),
        well_formed(entry.value),
    ensures
        uncomments(entry_text(entry, comments, commas), entry_text(entry, false, commas)),
    decreases entry,
{
    let x = gap_text(entry.before, comments);
    let y = gap_text(entry.before, false);
    gap_uncomments(entry.before, comments);
    key_uncomments(entry.key, comments);
    uncomments_in_turn(x, y, key_text(entry.key, comments), key_text(entry.key, false));
    doc_uncomments(entry.value, comments, commas);
    let x = x + key_text(entry.key, comments);
    let y = y + key_text(entry.key, false);
    uncomments_in_turn(
        x,
        y,
        doc_text(entry.value, comments, commas),
        doc_text(entry.value, false, commas),
    );
    gap_uncomments(entry.after, comments);
    uncomments_in_turn(
        x + doc_text(entry.value, comments, commas),
        y + doc_text(entry.value, false, commas),
        gap_text(entry.after, comments),
        gap_text(entry.after, false),
    );
}

/// Whether `x` loses its trailing commas to become `y`, whatever follows.
spec fn trims(x: Seq<char>, y: Seq<char>) -> bool {
    forall|rest: Seq<char>|
        #[trigger] jsonc::without_trailing_commas(x + rest) == y + jsonc::without_trailing_commas(
            rest,
        )
}

/// Whether `x` starts with a token that closes nothing, white space aside.
spec fn opens(x: Seq<char>) -> bool {
    forall|rest: Seq<char>| !#[trigger] jsonc::closes_next(x + rest)
}

proof fn trims_in_turn(x: Seq<char>, y: Seq<char>, more: Seq<char>, left: Seq<char>)
    requires
        trims(x, y),
        trims(more, left),
    ensures
        trims(x + more, y + left),
{
    assert forall|rest: Seq<char>|
        #[trigger] jsonc::without_trailing_commas((x + more) + rest) == (y + left)
            + jsonc::without_trailing_commas(rest) by {
        assert((x + more) + rest =~= x + (more + rest));
        assert(jsonc::without_trailing_commas(x + (more + rest)) == y
            + jsonc::without_trailing_commas(more + rest));
        assert(y + (left + jsonc::without_trailing_commas(rest)) =~= (y + left)
            + jsonc::without_trailing_commas(rest));
    }
}

proof fn nothing_trims()
    ensures
        trims(Seq::empty(), Seq::empty()),
{
    assert forall|rest: Seq<char>|
        #[trigger] jsonc::without_trailing_commas(Seq::<char>::empty() + rest)
            == Seq::<char>::empty() + jsonc::without_trailing_commas(rest) by {
        assert(Seq::<char>::empty() + rest =~= rest);
        assert(Seq::<char>::empty() + jsonc::without_trailing_commas(rest)
            =~= jsonc::without_trailing_commas(rest));
    }
}

proof fn other_char_trims(c: char)
    requires
        c != '"',
        c != ',',
    ensures
        trims(seq![c], seq![c]),
{
    assert forall|rest: Seq<char>|
        #[trigger] jsonc::without_trailing_commas(seq![c] + rest) == seq![c]
            + jsonc::without_trailing_commas(rest) by {
        assert((seq![c] + rest).skip(1) =~= rest);
        assert((seq![c] + rest)[0] == c);
    }
}

proof fn literal_trims(body: Seq<char>)
    requires
        jsonc::literal_body(body),
    ensures
        trims(seq!['"'] + body, seq!['"'] + body),
{
    assert forall|rest: Seq<char>|
        #[trigger] jsonc::without_trailing_commas((seq!['"'] + body) + rest) == (seq!['"'] + body)
            + jsonc::without_trailing_commas(rest) by {
        jsonc::law_literals_are_kept(body, rest);
    }
}

proof fn token_trims(s: Seq<char>)
    requires
        forall|i: int| 0 <= i < s.len() ==> token_char(#[trigger] s[i]),
    ensures
        trims(s, s),
    decreases s.len(),
{
    if s.len() == 0 {
        assert(s =~= Seq::empty());
        nothing_trims();
    } else {
        let more = s.skip(1);
        assert forall|i: int| 0 <= i < more.len() implies token_char(#[trigger] more[i]) by {
            assert(s[i + 1] == more[i]);
        }
        assert(token_char(s[0]));
        token_trims(more);
        other_char_trims(s[0]);
        trims_in_turn(seq![s[0]], seq![s[0]], more, more);
        assert(seq![s[0]] + more =~= s);
    }
}

/// Without comments a gap is white space.
proof fn gap_is_white(gap: Seq<Trivia>)
    requires
        sound_gap(gap),
    ensures
        forall|i: int|
            0 <= i < gap_text(gap, false).len() ==> text::white(
                #[trigger] gap_text(gap, false)[i],
            ),
        trims(gap_text(gap, false), gap_text(gap, false)),
        forall|rest: Seq<char>|
            #[trigger] jsonc::closes_next(gap_text(gap, false) + rest) == jsonc::closes_next(rest),
    decreases gap.len(),
{
    let x = gap_text(gap, false);
    if gap.len() > 0 {
        sound_gap_parts(gap);
        gap_is_white(gap.skip(1));
        assert(seq![gap[0]][0] == gap[0]);
        let first = trivia_text(gap[0], false);
        let more = gap_text(gap.skip(1), false);
        assert forall|i: int| 0 <= i < x.len() implies text::white(#[trigger] x[i]) by {
            if i >= first.len() {
                assert(x[i] == more[i - first.len()]);
            }
        }
    }
    assert forall|rest: Seq<char>| jsonc::without_trailing_commas(x + rest) == x
        + jsonc::without_trailing_commas(rest) && jsonc::closes_next(x + rest)
        == jsonc::closes_next(rest) by {
        jsonc::space_is_kept(x, rest);
    }
}

proof fn token_opens(x: Seq<char>)
    requires
        x.len() > 0,
        !text::white(x[0]),
        x[0] != '}',
        x[0] != ']',
    ensures
        opens(x),
{
    assert forall|rest: Seq<char>| !#[trigger] jsonc::closes_next(x + rest) by {
        assert((x + rest)[0] == x[0]);
    }
}

proof fn doc_opens(doc: Doc, commas: bool)
    requires
        well_formed(doc),
    ensures
        opens(doc_text(doc, false, commas)),
{
    let x = doc_text(doc, false, commas);
    if let Doc::Scalar(s) = doc {
        assert(token_char(s[0]));
    }
    token_opens(x);
}

proof fn entry_opens(entry: Entry, object: bool, commas: bool)
    requires
        sound_entry(entry, object),
        well_formed(entry.value),
    ensures
        opens(entry_text(entry, false, commas)),
{
    let x = entry_text(entry, false, commas);
    let gap = gap_text(entry.before, false);
    let tail = key_text(entry.key, false) + doc_text(entry.value, false, commas) + gap_text(
        entry.after,
        false,
    );
    gap_is_white(entry.before);
    doc_opens(entry.value, commas);
    assert forall|rest: Seq<char>| !#[trigger] jsonc::closes_next(x + rest) by {
        assert(x + rest =~= gap + (tail + rest));
        match entry.key {
            Some(key) => {
                assert((tail + rest)[0] == '"');
            },
            None => {
                let value = doc_text(entry.value, false, commas);
                let more = gap_text(entry.after, false) + rest;
                assert(tail + rest =~= value + more);
            },
        }
    }
}

proof fn comma_stays(x: Seq<char>, y: Seq<char>)
    requires
        trims(x, y),
        opens(x),
    ensures
        trims(seq![','] + x, seq![','] + y),
{
    assert forall|rest: Seq<char>|
        #[trigger] jsonc::without_trailing_commas((seq![','] + x) + rest) == (seq![','] + y)
            + jsonc::without_trailing_commas(rest) by {
        let all = (seq![','] + x) + rest;
        assert(all.skip(1) =~= x + rest);
        assert(all[0] == ',');
        assert(!jsonc::closes_next(x + rest));
        assert(jsonc::without_trailing_commas(all) == seq![','] + jsonc::without_trailing_commas(
            x + rest,
        ));
        assert(seq![','] + (y + jsonc::without_trailing_commas(rest)) =~= (seq![','] + y)
            + jsonc::without_trailing_commas(rest));
    }
}

proof fn end_trims(object: bool, comma: bool, gap: Seq<Trivia>)
    requires
        sound_gap(gap),
    ensures
        trims(end_text(object, comma, gap, false), end_text(object, false, gap, false)),
{
    let close = seq![
        if object {
            '}'
        } else {
            ']'
        },
    ];
    let space = gap_text(gap, false);
    gap_is_white(gap);
    other_char_trims(close[0]);
    trims_in_turn(space, space, close, close);
    let body = space + close;
    assert(end_text(object, false, gap, false) =~= body);
    if comma {
        let x = end_text(object, comma, gap, false);
        assert forall|rest: Seq<char>|
            #[trigger] jsonc::without_trailing_commas(x + rest) == body
                + jsonc::without_trailing_commas(rest) by {
            jsonc::law_trailing_comma_goes(space, close[0], rest);
            assert(x + rest =~= seq![','] + space + seq![close[0]] + rest);
            assert(body =~= space + seq![close[0]]);
        }
    }
}

proof fn key_trims(key: Option<Key>)
    requires
        key matches Some(key) ==> {
            &&& jsonc::literal_body(key.body)
            &&& sound_gap(key.before_colon)
            &&& sound_gap(key.after_colon)
        },
    ensures
        trims(key_text(key, false), key_text(key, false)),
{
    match key {
        Some(key) => {
            let name = seq!['"'] + key.body;
            let x = gap_text(key.before_colon, false);
            let z = gap_text(key.after_colon, false);
            literal_trims(key.body);
            gap_is_white(key.before_colon);
            trims_in_turn(name, name, x, x);
            other_char_trims(':');
            trims_in_turn(name + x, name + x, seq![':'], seq![':']);
            gap_is_white(key.after_colon);
            trims_in_turn(name + x + seq![':'], name + x + seq![':'], z, z);
        },
        None => {
            nothing_trims();
        },
    }
}

proof fn doc_trims(doc: Doc, commas: bool)
    requires
        well_formed(doc),
    ensures
        trims(doc_text(doc, false, commas), doc_text(doc, false, false)),
    decreases doc,
{
    match doc {
        Doc::Scalar(s) => {
            token_trims(s);
        },
        Doc::Text(body) => {
            literal_trims(body);
        },
        Doc::Group { object, entries, comma, gap } => {
            let open = seq![
                if object {
                    '{'
                } else {
                    '['
                },
            ];
            let x = entries_text(entries, false, commas);
            let y = entries_text(entries, false, false);
            other_char_trims(open[0]);
            entries_trim(entries, object, commas);
            trims_in_turn(open, open, x, y);
            end_trims(object, comma && commas, gap);
            trims_in_turn(
                open + x,
                open + y,
                end_text(object, comma && commas, gap, false),
                end_text(object, false, gap, false),
            );
        },
    }
}

proof fn entries_trim(entries: Seq<Entry>, object: bool, commas: bool)
    requires
        forall|i: int|
            0 <= i < entries.len() ==> {
                &&& sound_entry(#[trigger] entries[i], object)
                &&& well_formed(entries[i].value)
            },
    ensures
        trims(entries_text(entries, false, commas), entries_text(entries, false, false)),
        entries.len() > 0 ==> opens(entries_text(entries, false, commas)),
    decreases entries,
{
    if entries.len() == 0 {
        nothing_trims();
    } else {
        assert(sound_entry(entries[0], object));
        entry_trims(entries[0], object, commas);
        entry_opens(entries[0], object, commas);
        if entries.len() > 1 {
            let first = entry_text(entries[0], false, commas);
            let more = entries.subrange(1, entries.len() as int);
            assert forall|i: int| 0 <= i < more.len() implies {
                &&& sound_entry(#[trigger] more[i], object)
                &&& well_formed(more[i].value)
            } by {
                assert(entries[i + 1] == more[i]);
            }
            entries_trim(more, object, commas);
            let x = entries_text(more, false, commas);
            let y = entries_text(more, false, false);
            comma_stays(x, y);
            trims_in_turn(
                first,
                entry_text(entries[0], false, false),
                seq![','] + x,
                seq![','] + y,
            );
            let all = entries_text(entries, false, commas);
            assert forall|rest: Seq<char>| !#[trigger] jsonc::closes_next(all + rest) by {
                assert(all + rest =~= first + (seq![','] + x + rest));
            }
        }
    }
}

proof fn entry_trims(entry: Entry, object: bool, commas: bool)
    requires
        sound_entry(entry, object),
        well_formed(entry.value),
    ensures
        trims(entry_text(entry, false, commas), entry_text(entry, false, false)),
    decreases entry,
{
    let x = gap_text(entry.before, false);
    let key = key_text(entry.key, false);
    let z = gap_text(entry.after, false);
    gap_is_white(entry.before);
    key_trims(entry.key);
    trims_in_turn(x, x, key, key);
    doc_trims(entry.value, commas);
    let value = doc_text(entry.value, false, commas);
    let left = doc_text(entry.value, false, false);
    trims_in_turn(x + key, x + key, value, left);
    gap_is_white(entry.after);
    trims_in_turn(x + key + value, x + key + left, z, z);
}

proof fn page_strips(page: Page, comments: bool, commas: bool)
    requires
        sound_page(page),
    ensures
        jsonc::without_trailing_commas(
            jsonc::without_comments(page_text(page, comments, commas)),
        ) == page_text(page, false, false),
{
    let x = gap_text(page.before, comments);
    let y = gap_text(page.before, false);
    let value = doc_text(page.doc, comments, commas);
    let left = doc_text(page.doc, false, commas);
    let bare = doc_text(page.doc, false, false);
    let end = gap_text(page.after, false);
    gap_uncomments(page.before, comments);
    doc_uncomments(page.doc, comments, commas);
    uncomments_in_turn(x, y, value, left);
    gap_uncomments(page.after, comments);
    uncomments_in_turn(x + value, y + left, gap_text(page.after, comments), end);
    let ending = match page.ending {
        Some(comment) => if comments {
            seq!['/', '/'] + comment
        } else {
            Seq::empty()
        },
        None => Seq::empty(),
    };
    assert(jsonc::without_comments(ending) =~= Seq::empty()) by {
        if let Some(comment) = page.ending {
            if comments {
                jsonc::law_line_comment_goes(comment, Seq::empty());
                assert(seq!['/', '/'] + comment + Seq::<char>::empty() =~= ending);
            }
        }
    }
    let text = jsonc::without_comments(page_text(page, comments, commas));
    assert(text =~= y + left + end);
    gap_is_white(page.before);
    doc_trims(page.doc, commas);
    trims_in_turn(y, y, left, bare);
    gap_is_white(page.after);
    trims_in_turn(y + left, y + bare, end, end);
    assert(text + Seq::<char>::empty() =~= text);
    assert(jsonc::without_trailing_commas(Seq::<char>::empty()) =~= Seq::empty());
    assert(jsonc::without_trailing_commas(text) == (y + bare + end) + Seq::<char>::empty());
    assert(page_text(page, false, false) =~= y + bare + end);
}

/// Stripping keeps the value: what is left of a well-formed document is the
/// document without its comments and trailing commas. That is plain JSON, and it
/// denotes the same value, with numbers, words, names and string literals as they
/// stood.
pub proof fn law_stripping_keeps_the_value(page: Page)
    requires
        sound_page(page),
    ensures
        jsonc::without_trailing_commas(jsonc::without_comments(page_text(page, true, true)))
            == page_text(bare_page(page), true, true),
        sound_page(bare_page(page)),
        plain_page(bare_page(page)),
        meaning(bare_page(page).doc) == meaning(page.doc),
{
    page_strips(page, true, true);
    bare_gap_is_plain(page.before, true);
    bare_is_plain(page.doc, true, true);
    bare_gap_is_plain(page.after, true);
    assert(page_text(bare_page(page), true, true) =~= page_text(page, false, false));
}

/// Stripping a well-formed document twice changes nothing more.
pub proof fn law_stripping_settles(page: Page)
    requires
        sound_page(page),
    ensures
        ({
            let stripped = jsonc::without_trailing_commas(
                jsonc::without_comments(page_text(page, true, true)),
            );
            jsonc::without_trailing_commas(jsonc::without_comments(stripped)) == stripped
        }),
{
    page_strips(page, true, true);
    page_strips(page, false, false);
}

} // verus!
