use vstd::prelude::*;

use crate::bytes::{append_bytes, find, find_from, occurs_at};
use crate::exchange::{key_name, type_field_name, value_name};
use crate::error::ExchangeError;
use crate::record::{
    field_of, is_pad, lines, newline, packet_body, parse_lines, separator, trim_nul_start,
    trim_pad_end,
};

verus! {

/// The field name `command`.
pub open spec fn command_name() -> Seq<u8> {
    seq![99u8, 111, 109, 109, 97, 110, 100]
}

/// The type word `request`.
pub open spec fn request_word() -> Seq<u8> {
    seq![114u8, 101, 113, 117, 101, 115, 116]
}

/// The type word `disconnect`.
pub open spec fn disconnect_word() -> Seq<u8> {
    seq![100u8, 105, 115, 99, 111, 110, 110, 101, 99, 116]
}

/// The command word `insert`.
pub open spec fn insert_word() -> Seq<u8> {
    seq![105u8, 110, 115, 101, 114, 116]
}

/// The command word `query`.
pub open spec fn query_word() -> Seq<u8> {
    seq![113u8, 117, 101, 114, 121]
}

/// The command word `remove`.
pub open spec fn remove_word() -> Seq<u8> {
    seq![114u8, 101, 109, 111, 118, 101]
}

/// One line of an outbound command: `name: value\n`.
pub open spec fn field_line(name: Seq<u8>, value: Seq<u8>) -> Seq<u8> {
    name + separator() + value + newline()
}

/// A request to the server.
pub enum Command {
    /// Store `value` under `key`.
    Insert { key: Vec<u8>, value: Vec<u8> },
    /// Ask for the value of `key`.
    Query { key: Vec<u8> },
    /// Delete `key`.
    Remove { key: Vec<u8> },
    /// End the session.
    Disconnect,
}

/// The map that a sequence of fields gives, a later field of a name replacing
/// an earlier one.
pub open spec fn fields_map(fs: Seq<(Seq<u8>, Seq<u8>)>) -> Map<Seq<u8>, Seq<u8>>
    decreases fs.len(),
{
    if fs.len() == 0 {
        Map::empty()
    } else {
        fields_map(fs.drop_last()).insert(fs.last().0, fs.last().1)
    }
}

impl Command {
    /// The fields of the command, in the order they are sent.
    pub open spec fn field_list(&self) -> Seq<(Seq<u8>, Seq<u8>)> {
        match self {
            Command::Insert { key, value } => seq![
                (type_field_name(), request_word()),
                (command_name(), insert_word()),
                (key_name(), key@),
                (value_name(), value@),
            ],
            Command::Query { key } => seq![
                (type_field_name(), request_word()),
                (command_name(), query_word()),
                (key_name(), key@),
            ],
            Command::Remove { key } => seq![
                (type_field_name(), request_word()),
                (command_name(), remove_word()),
                (key_name(), key@),
            ],
            Command::Disconnect => seq![(type_field_name(), disconnect_word())],
        }
    }

    /// The field set of the command.
    pub open spec fn fields(&self) -> Map<Seq<u8>, Seq<u8>> {
        fields_map(self.field_list())
    }

    /// The bytes sent for the command.
    pub open spec fn encoding(&self) -> Seq<u8> {
        match self {
            Command::Insert { key, value } => field_line(type_field_name(), request_word())
                + field_line(command_name(), insert_word()) + field_line(key_name(), key@)
                + field_line(value_name(), value@),
            Command::Query { key } => field_line(type_field_name(), request_word()) + field_line(
                command_name(),
                query_word(),
            ) + field_line(key_name(), key@),
            Command::Remove { key } => field_line(type_field_name(), request_word()) + field_line(
                command_name(),
                remove_word(),
            ) + field_line(key_name(), key@),
            Command::Disconnect => field_line(type_field_name(), disconnect_word()),
        }
    }

    /// Encodes the command as the lines sent to the server.
    pub fn encode(&self) -> (r: Vec<u8>)
        ensures
            r@ == self.encoding(),
    {
        let mut r: Vec<u8> = Vec::new();
        let sep: Vec<u8> = vec![58u8, 32];
        let nl: Vec<u8> = vec![10u8];
        let type_field: Vec<u8> = vec![116u8, 121, 112, 101];
        let command_field: Vec<u8> = vec![99u8, 111, 109, 109, 97, 110, 100];
        let key_field: Vec<u8> = vec![107u8, 101, 121];
        let value_field: Vec<u8> = vec![118u8, 97, 108, 117, 101];
        let request: Vec<u8> = vec![114u8, 101, 113, 117, 101, 115, 116];
        assert(nl@ =~= newline());
        assert(sep@ =~= separator());
        match self {
            Command::Disconnect => {
                let word: Vec<u8> = vec![100u8, 105, 115, 99, 111, 110, 110, 101, 99, 116];
                push_line(&mut r, type_field.as_slice(), word.as_slice(), sep.as_slice(), nl.as_slice());
                assert(r@ =~= self.encoding());
            },
            Command::Insert { key, value } => {
                let word: Vec<u8> = vec![105u8, 110, 115, 101, 114, 116];
                push_line(&mut r, type_field.as_slice(), request.as_slice(), sep.as_slice(), nl.as_slice());
                push_line(&mut r, command_field.as_slice(), word.as_slice(), sep.as_slice(), nl.as_slice());
                push_line(&mut r, key_field.as_slice(), key.as_slice(), sep.as_slice(), nl.as_slice());
                push_line(&mut r, value_field.as_slice(), value.as_slice(), sep.as_slice(), nl.as_slice());
                assert(r@ =~= self.encoding());
            },
            Command::Query { key } => {
                let word: Vec<u8> = vec![113u8, 117, 101, 114, 121];
                push_line(&mut r, type_field.as_slice(), request.as_slice(), sep.as_slice(), nl.as_slice());
                push_line(&mut r, command_field.as_slice(), word.as_slice(), sep.as_slice(), nl.as_slice());
                push_line(&mut r, key_field.as_slice(), key.as_slice(), sep.as_slice(), nl.as_slice());
                assert(r@ =~= self.encoding());
            },
            Command::Remove { key } => {
                let word: Vec<u8> = vec![114u8, 101, 109, 111, 118, 101];
                push_line(&mut r, type_field.as_slice(), request.as_slice(), sep.as_slice(), nl.as_slice());
                push_line(&mut r, command_field.as_slice(), word.as_slice(), sep.as_slice(), nl.as_slice());
                push_line(&mut r, key_field.as_slice(), key.as_slice(), sep.as_slice(), nl.as_slice());
                assert(r@ =~= self.encoding());
            },
        }
        r
    }
}

/// Whether no byte of `s` is `b`.
pub open spec fn no_byte(s: Seq<u8>, b: u8) -> bool {
    forall|i: int| 0 <= i < s.len() ==> s[i] != b
}

/// A field as one line of text, without its line terminator.
pub open spec fn field_text(f: (Seq<u8>, Seq<u8>)) -> Seq<u8> {
    f.0 + separator() + f.1
}

/// The fields as lines joined by newlines, with no newline at the end.
pub open spec fn joined(fs: Seq<(Seq<u8>, Seq<u8>)>) -> Seq<u8>
    decreases fs.len(),
{
    if fs.len() == 0 {
        Seq::empty()
    } else if fs.len() == 1 {
        field_text(fs[0])
    } else {
        field_text(fs[0]) + newline() + joined(fs.drop_first())
    }
}

/// Fields that can be read back from their lines: no name holds a colon or
/// a newline, no value a newline.
pub open spec fn plain_fields(fs: Seq<(Seq<u8>, Seq<u8>)>) -> bool {
    forall|i: int|
        0 <= i < fs.len() ==> no_byte(#[trigger] fs[i].0, 58) && no_byte(fs[i].0, 10) && no_byte(
            fs[i].1,
            10,
        )
}

impl Command {
    /// A command whose encoding reads back as its fields: keys and values
    /// hold no newline, and the last value sent is not empty and does not end
    /// in a byte that a packet's end loses (NUL or whitespace).
    pub open spec fn is_sendable(&self) -> bool {
        match self {
            Command::Insert { key, value } => no_byte(key@, 10) && no_byte(value@, 10)
                && value@.len() > 0 && !is_pad(value@.last()),
            Command::Query { key } => no_byte(key@, 10) && key@.len() > 0 && !is_pad(key@.last()),
            Command::Remove { key } => no_byte(key@, 10) && key@.len() > 0 && !is_pad(key@.last()),
            Command::Disconnect => true,
        }
    }
}

proof fn lemma_find_first(s: Seq<u8>, pat: Seq<u8>, i: int, n: int)
    requires
        0 <= i <= n,
        occurs_at(s, pat, n),
        forall|j: int| i <= j < n ==> !occurs_at(s, pat, j),
    ensures
        find_from(s, pat, i) == n,
    decreases n - i,
{
    if i < n {
        lemma_find_first(s, pat, i + 1, n);
    }
}

proof fn lemma_find_none(s: Seq<u8>, pat: Seq<u8>, i: int)
    requires
        0 <= i,
        forall|j: int| i <= j ==> !occurs_at(s, pat, j),
    ensures
        find_from(s, pat, i) == -1,
    decreases s.len() + 1 - i,
{
    if i + pat.len() <= s.len() {
        lemma_find_none(s, pat, i + 1);
    }
}

proof fn lemma_single_line(s: Seq<u8>)
    requires
        no_byte(s, 10),
    ensures
        lines(s) == seq![s],
{
    assert forall|j: int| 0 <= j implies !occurs_at(s, newline(), j) by {
        if occurs_at(s, newline(), j) {
            assert(s.subrange(j, j + 1)[0] == s[j]);
        }
    }
    lemma_find_none(s, newline(), 0);
}

proof fn lemma_lines_cons(a: Seq<u8>, rest: Seq<u8>)
    requires
        no_byte(a, 10),
    ensures
        lines(a + newline() + rest) == seq![a] + lines(rest),
{
    let s = a + newline() + rest;
    assert forall|j: int| 0 <= j < a.len() implies !occurs_at(s, newline(), j) by {
        assert(s.subrange(j, j + 1)[0] == a[j]);
    }
    assert(s.subrange(a.len() as int, a.len() + 1 as int) =~= newline());
    lemma_find_first(s, newline(), 0, a.len() as int);
    assert(s.subrange(0, a.len() as int) =~= a);
    assert(s.subrange(a.len() + 1 as int, s.len() as int) =~= rest);
}

proof fn lemma_field_text(f: (Seq<u8>, Seq<u8>))
    requires
        no_byte(f.0, 58),
        no_byte(f.0, 10),
        no_byte(f.1, 10),
    ensures
        field_of(field_text(f)) == Some(f),
        no_byte(field_text(f), 10),
        field_text(f).len() > 0,
{
    let s = field_text(f);
    let n = f.0.len() as int;
    assert forall|j: int| 0 <= j < n implies !occurs_at(s, separator(), j) by {
        assert(s.subrange(j, j + 2)[0] == f.0[j]);
    }
    assert(s.subrange(n, n + 2) =~= separator());
    lemma_find_first(s, separator(), 0, n);
    assert(s.subrange(0, n) =~= f.0);
    assert(s.subrange(n + 2, s.len() as int) =~= f.1);
    assert forall|i: int| 0 <= i < s.len() implies s[i] != 10 by {
        if i >= n + 2 {
            assert(s[i] == f.1[i - n - 2]);
        }
    }
}

proof fn lemma_lines_joined(fs: Seq<(Seq<u8>, Seq<u8>)>)
    requires
        fs.len() > 0,
        plain_fields(fs),
    ensures
        lines(joined(fs)) == fs.map_values(|f: (Seq<u8>, Seq<u8>)| field_text(f)),
    decreases fs.len(),
{
    lemma_field_text(fs[0]);
    if fs.len() == 1 {
        lemma_single_line(field_text(fs[0]));
        assert(fs.map_values(|f: (Seq<u8>, Seq<u8>)| field_text(f)) =~= seq![field_text(fs[0])]);
    } else {
        let rest = fs.drop_first();
        assert forall|i: int| 0 <= i < rest.len() implies no_byte(#[trigger] rest[i].0, 58)
            && no_byte(rest[i].0, 10) && no_byte(rest[i].1, 10) by {
            assert(rest[i] == fs[i + 1]);
        }
        lemma_lines_joined(rest);
        lemma_lines_cons(field_text(fs[0]), joined(rest));
        assert(fs.map_values(|f: (Seq<u8>, Seq<u8>)| field_text(f)) =~= seq![field_text(fs[0])]
            + rest.map_values(|f: (Seq<u8>, Seq<u8>)| field_text(f)));
    }
}

proof fn lemma_parse_fields(fs: Seq<(Seq<u8>, Seq<u8>)>)
    requires
        plain_fields(fs),
    ensures
        parse_lines(fs.map_values(|f: (Seq<u8>, Seq<u8>)| field_text(f))) == Ok::<
            Map<Seq<u8>, Seq<u8>>,
            ExchangeError,
        >(fields_map(fs)),
    decreases fs.len(),
{
    let ls = fs.map_values(|f: (Seq<u8>, Seq<u8>)| field_text(f));
    if fs.len() > 0 {
        let front = fs.drop_last();
        assert forall|i: int| 0 <= i < front.len() implies no_byte(#[trigger] front[i].0, 58)
            && no_byte(front[i].0, 10) && no_byte(front[i].1, 10) by {
            assert(front[i] == fs[i]);
        }
        lemma_parse_fields(front);
        assert(ls.drop_last() =~= front.map_values(|f: (Seq<u8>, Seq<u8>)| field_text(f)));
        lemma_field_text(fs.last());
        assert(ls.last() == field_text(fs.last()));
    } else {
        assert(ls =~= Seq::<Seq<u8>>::empty());
    }
}

proof fn lemma_joined_ends(fs: Seq<(Seq<u8>, Seq<u8>)>)
    requires
        fs.len() > 0,
        fs.last().1.len() > 0,
    ensures
        joined(fs).len() > 0,
        joined(fs).last() == fs.last().1.last(),
        fs[0].0.len() > 0 ==> joined(fs)[0] == fs[0].0[0],
    decreases fs.len(),
{
    if fs.len() > 1 {
        let rest = fs.drop_first();
        assert(rest.last() == fs.last());
        lemma_joined_ends(rest);
    }
}

proof fn lemma_joined_cons(f: (Seq<u8>, Seq<u8>), rest: Seq<(Seq<u8>, Seq<u8>)>)
    requires
        rest.len() > 0,
    ensures
        joined(seq![f] + rest) == field_text(f) + newline() + joined(rest),
{
    assert((seq![f] + rest).drop_first() =~= rest);
}

proof fn lemma_joined_encoding(c: Command)
    ensures
        c.encoding() == joined(c.field_list()) + newline(),
{
    let nl = newline();
    let f1 = c.field_list()[0];
    assert(joined(seq![f1]) == field_text(f1));
    match c {
        Command::Disconnect => {
            assert(c.field_list() =~= seq![f1]);
            assert(c.encoding() =~= field_text(f1) + nl);
        },
        Command::Insert { key, value } => {
            let f2 = (command_name(), insert_word());
            let f3 = (key_name(), key@);
            let f4 = (value_name(), value@);
            assert(joined(seq![f4]) == field_text(f4));
            lemma_joined_cons(f3, seq![f4]);
            assert(seq![f3] + seq![f4] =~= seq![f3, f4]);
            lemma_joined_cons(f2, seq![f3, f4]);
            assert(seq![f2] + seq![f3, f4] =~= seq![f2, f3, f4]);
            lemma_joined_cons(f1, seq![f2, f3, f4]);
            assert(seq![f1] + seq![f2, f3, f4] =~= c.field_list());
            assert(c.encoding() =~= joined(c.field_list()) + nl);
        },
        Command::Query { key } => {
            let f2 = (command_name(), query_word());
            let f3 = (key_name(), key@);
            assert(joined(seq![f3]) == field_text(f3));
            lemma_joined_cons(f2, seq![f3]);
            assert(seq![f2] + seq![f3] =~= seq![f2, f3]);
            lemma_joined_cons(f1, seq![f2, f3]);
            assert(seq![f1] + seq![f2, f3] =~= c.field_list());
            assert(c.encoding() =~= joined(c.field_list()) + nl);
        },
        Command::Remove { key } => {
            let f2 = (command_name(), remove_word());
            let f3 = (key_name(), key@);
            assert(joined(seq![f3]) == field_text(f3));
            lemma_joined_cons(f2, seq![f3]);
            assert(seq![f2] + seq![f3] =~= seq![f2, f3]);
            lemma_joined_cons(f1, seq![f2, f3]);
            assert(seq![f1] + seq![f2, f3] =~= c.field_list());
            assert(c.encoding() =~= joined(c.field_list()) + nl);
        },
    }
}

/// Encoding a sendable command and reading its text back as a record gives
/// exactly the command's field set.
pub proof fn lemma_command_round_trip(c: Command)
    requires
        c.is_sendable(),
    ensures
        parse_lines(lines(packet_body(c.encoding()))) == Ok::<
            Map<Seq<u8>, Seq<u8>>,
            ExchangeError,
        >(c.fields()),
{
    let fs = c.field_list();
    let nl = newline();
    assert(no_byte(type_field_name(), 58) && no_byte(type_field_name(), 10));
    assert(no_byte(command_name(), 58) && no_byte(command_name(), 10));
    assert(no_byte(key_name(), 58) && no_byte(key_name(), 10));
    assert(no_byte(value_name(), 58) && no_byte(value_name(), 10));
    assert(no_byte(request_word(), 10) && no_byte(disconnect_word(), 10));
    assert(no_byte(insert_word(), 10) && no_byte(query_word(), 10) && no_byte(remove_word(), 10));
    assert(!is_pad(disconnect_word().last()));
    assert(plain_fields(fs));
    let j = joined(fs);
    assert(c.encoding() =~= j + nl) by {
        lemma_joined_encoding(c);
    }
    lemma_joined_ends(fs);
    assert((j + nl)[0] == j[0]);
    assert(trim_nul_start(j + nl) == j + nl);
    assert((j + nl).drop_last() =~= j);
    assert(trim_pad_end(j) == j);
    assert(trim_pad_end(j + nl) == j);
    assert(packet_body(c.encoding()) == j);
    lemma_lines_joined(fs);
    lemma_parse_fields(fs);
}

fn push_line(r: &mut Vec<u8>, name: &[u8], value: &[u8], sep: &[u8], nl: &[u8])
    requires
        sep@ == separator(),
        nl@ == newline(),
    ensures
        final(r)@ == old(r)@ + field_line(name@, value@),
{
    append_bytes(r, name);
    append_bytes(r, sep);
    append_bytes(r, value);
    append_bytes(r, nl);
    assert(final(r)@ =~= old(r)@ + field_line(name@, value@));
}

} // verus!
