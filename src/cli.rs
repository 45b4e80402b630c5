//! The command interpreter over the key-value store: it turns the words of an
//! input line into a command and carries the command out on the store.

use crate::index::texts;
use crate::kv::BurrowDB;
use crate::text::append;
use vstd::prelude::*;

verus! {

/// The words of a line, as split at runs of Unicode white space.
pub uninterp spec fn words_of(s: Seq<char>) -> Seq<Seq<char>>;

/// Relies on `str::split_whitespace`: the words of `line`, in order, without
/// white space; an empty line has none.
#[verifier::external_body]
fn split_words(line: &str) -> (r: Vec<String>)
    ensures
        texts(r@) == words_of(line@),
        line@.len() == 0 ==> r@.len() == 0,
{
    line.split_whitespace().map(|w| w.to_owned()).collect()
}

/// The words of `ws` joined by single spaces.
pub open spec fn join_spaces(ws: Seq<Seq<char>>) -> Seq<char>
    decreases ws.len(),
{
    if ws.len() == 0 {
        Seq::empty()
    } else if ws.len() == 1 {
        ws[0]
    } else {
        join_spaces(ws.drop_last()) + seq![' '] + ws.last()
    }
}

/// A command of the interpreter.
pub enum Command {
    /// `PUT key value...`: the words after the key, joined by single spaces
    /// (empty when there are none).
    Put(String, String),
    /// `GET key`.
    Get(String),
    /// `LIST`.
    List,
    /// `HELP`.
    Help,
    /// `EXIT` or `QUIT`.
    Exit,
    /// Anything else.
    Unknown,
}

/// What the interpreter answers to a command.
pub enum Reply {
    /// The pair was stored.
    Stored(String, String),
    /// The key has this value.
    Found(String, String),
    /// The key has no value.
    Missing(String),
    /// Listing keys is not offered.
    ListUnavailable,
    /// The list of commands.
    Help,
    /// The session ends.
    Goodbye,
    /// The command was not understood.
    Unknown,
}

/// The command that the words `ws` spell.
pub fn parse_words(ws: &Vec<String>) -> (r: Command)
    ensures
        (r is Put) == (ws@.len() >= 2 && ws@[0]@ == "PUT"@),
        (r is Get) == (ws@.len() == 2 && ws@[0]@ == "GET"@),
        (r is List) == (ws@.len() == 1 && ws@[0]@ == "LIST"@),
        (r is Help) == (ws@.len() == 1 && ws@[0]@ == "HELP"@),
        (r is Exit) == (ws@.len() == 1 && (ws@[0]@ == "EXIT"@ || ws@[0]@ == "QUIT"@)),
        r is Put ==> r->Put_0@ == ws@[1]@ && r->Put_1@ == join_spaces(texts(ws@).subrange(2, ws@.len() as int)),
        r is Get ==> r->Get_0@ == ws@[1]@,
{
    proof {
        reveal_strlit("PUT");
        reveal_strlit("GET");
        reveal_strlit("LIST");
        reveal_strlit("HELP");
        reveal_strlit("EXIT");
        reveal_strlit("QUIT");
        assert("PUT"@[0] == 'P' && "GET"@[0] == 'G' && "LIST"@[0] == 'L');
        assert("HELP"@[0] == 'H' && "EXIT"@[0] == 'E' && "QUIT"@[0] == 'Q');
    }
    let n = ws.len();
    if n == 0 {
        return Command::Unknown;
    }
    if n >= 2 && ws[0] == "PUT".to_owned() {
        let mut value = String::new();
        let mut i: usize = 2;
        while i < n
            invariant
                n == ws@.len(),
                2 <= i <= n,
                value@ == join_spaces(texts(ws@).subrange(2, i as int)),
            decreases n - i,
        {
            let ghost before = value@;
            if i > 2 {
                append(&mut value, " ");
            }
            append(&mut value, ws[i].as_str());
            proof {
                reveal_strlit(" ");
                let s = texts(ws@).subrange(2, i + 1);
                assert(s.drop_last() =~= texts(ws@).subrange(2, i as int));
                if i == 2 {
                    assert(before =~= Seq::<char>::empty());
                    assert(value@ =~= ws@[2]@);
                }
            }
            i = i + 1;
        }
        return Command::Put(ws[1].clone(), value);
    }
    if n == 2 && ws[0] == "GET".to_owned() {
        return Command::Get(ws[1].clone());
    }
    if n == 1 {
        if ws[0] == "LIST".to_owned() {
            return Command::List;
        }
        if ws[0] == "HELP".to_owned() {
            return Command::Help;
        }
        if ws[0] == "EXIT".to_owned() || ws[0] == "QUIT".to_owned() {
            return Command::Exit;
        }
    }
    Command::Unknown
}

/// The command that `line` spells, read word by word.
pub fn parse_line(line: &str) -> (r: Command)
    ensures
        (r is Put) == (words_of(line@).len() >= 2 && words_of(line@)[0] == "PUT"@),
        (r is Get) == (words_of(line@).len() == 2 && words_of(line@)[0] == "GET"@),
        (r is List) == (words_of(line@) == seq!["LIST"@]),
        (r is Help) == (words_of(line@) == seq!["HELP"@]),
        (r is Exit) == (words_of(line@) == seq!["EXIT"@] || words_of(line@) == seq!["QUIT"@]),
        r is Put ==> r->Put_0@ == words_of(line@)[1] && r->Put_1@ == join_spaces(
            words_of(line@).subrange(2, words_of(line@).len() as int),
        ),
        r is Get ==> r->Get_0@ == words_of(line@)[1],
{
    let ws = split_words(line);
    let r = parse_words(&ws);
    proof {
        let w = words_of(line@);
        assert(w.len() == ws@.len());
        assert(forall|i: int| 0 <= i < w.len() ==> w[i] == #[trigger] ws@[i]@);
        if w.len() == 1 {
            assert(w == seq!["LIST"@] <==> ws@[0]@ == "LIST"@) by {
                if ws@[0]@ == "LIST"@ {
                    assert(w =~= seq!["LIST"@]);
                }
            }
            assert(w == seq!["HELP"@] <==> ws@[0]@ == "HELP"@) by {
                if ws@[0]@ == "HELP"@ {
                    assert(w =~= seq!["HELP"@]);
                }
            }
            assert(w == seq!["EXIT"@] <==> ws@[0]@ == "EXIT"@) by {
                if ws@[0]@ == "EXIT"@ {
                    assert(w =~= seq!["EXIT"@]);
                }
            }
            assert(w == seq!["QUIT"@] <==> ws@[0]@ == "QUIT"@) by {
                if ws@[0]@ == "QUIT"@ {
                    assert(w =~= seq!["QUIT"@]);
                }
            }
        }
    }
    r
}

/// An interpreter session over a store.
pub struct CLI<'a> {
    db: &'a mut BurrowDB,
}

impl<'a> CLI<'a> {
    /// The contents of the store.
    pub closed spec fn contents(&self) -> Map<Seq<char>, Seq<char>> {
        self.db@
    }

    /// The store is well formed.
    pub closed spec fn wf(&self) -> bool {
        self.db.wf()
    }

    /// A session over `db`.
    pub fn new(db: &'a mut BurrowDB) -> (r: CLI<'a>)
        requires
            old(db).wf(),
        ensures
            r.wf(),
            r.contents() == old(db)@,
    {
        CLI { db }
    }

    /// The store this session works on.
    pub fn store(&self) -> (r: &BurrowDB)
        ensures
            r.wf() == self.wf(),
            r@ == self.contents(),
    {
        self.db
    }

    fn handle_put(&mut self, key: &str, value: &str)
        requires
            old(self).wf(),
        ensures
            final(self).wf(),
            final(self).contents() == old(self).contents().insert(key@, value@),
    {
        self.db.put(key.to_owned(), value.to_owned());
    }

    fn handle_get(&self, key: &str) -> (r: Option<String>)
        requires
            self.wf(),
        ensures
            r is Some == self.contents().contains_key(key@),
            r is Some ==> r->Some_0@ == self.contents()[key@],
    {
        match self.db.get(key) {
            Some(v) => Some(v.to_owned()),
            None => None,
        }
    }

    /// Carries out `cmd`: a put stores its pair, a get reads its key, and the
    /// other commands leave the store as it is.
    pub fn handle(&mut self, cmd: Command) -> (r: Reply)
        requires
            old(self).wf(),
        ensures
            final(self).wf(),
            match cmd {
                Command::Put(k, v) => final(self).contents() == old(self).contents().insert(k@, v@)
                    && r is Stored && r->Stored_0@ == k@ && r->Stored_1@ == v@,
                Command::Get(k) => final(self).contents() == old(self).contents() && if old(self).contents().contains_key(k@) {
                    r is Found && r->Found_0@ == k@ && r->Found_1@ == old(self).contents()[k@]
                } else {
                    r is Missing && r->Missing_0@ == k@
                },
                Command::List => final(self).contents() == old(self).contents() && r is ListUnavailable,
                Command::Help => final(self).contents() == old(self).contents() && r is Help,
                Command::Exit => final(self).contents() == old(self).contents() && r is Goodbye,
                Command::Unknown => final(self).contents() == old(self).contents() && r is Unknown,
            },
    {
        match cmd {
            Command::Put(k, v) => {
                self.handle_put(k.as_str(), v.as_str());
                Reply::Stored(k, v)
            },
            Command::Get(k) => match self.handle_get(k.as_str()) {
                Some(v) => Reply::Found(k, v),
                None => Reply::Missing(k),
            },
            Command::List => Reply::ListUnavailable,
            Command::Help => Reply::Help,
            Command::Exit => Reply::Goodbye,
            Command::Unknown => Reply::Unknown,
        }
    }
}

} // verus!
