//! Participants: how one is made from a row of the survey, and who may give
//! to whom.

use crate::names::NameSet;
use crate::parens::without_parentheticals;
use crate::rules::BaseCfg;
use crate::table::Table;
use vstd::prelude::*;

verus! {

/// The headers of the columns that hold a participant's answers.
#[derive(Debug, PartialEq, Eq)]
pub struct Columns {
    pub email: String,
    pub desired_characters: String,
    pub desired_ships: String,
    pub banned_characters: String,
    pub banned_ships: String,
}

/// The columns to read and the rule tables to read them with.
#[derive(Debug, PartialEq, Eq)]
pub struct Cfg {
    pub columns: Columns,
    pub base: BaseCfg,
}

/// One row of the survey: a value under each header.
#[derive(Debug, PartialEq, Eq)]
pub struct Row {
    cells: Table<String>,
}

/// The column that a row lacks.
#[derive(Clone, Copy, Debug, PartialEq, Eq, Structural)]
pub enum MissingColumn {
    Email,
    DesiredCharacters,
    BannedCharacters,
    DesiredShips,
    BannedShips,
}

/// Someone who takes part in the exchange.
#[derive(Debug, PartialEq, Eq)]
pub struct Participant {
    /// What identifies the participant.
    pub email: String,
    /// The characters that the participant would like to receive.
    pub desired_characters: NameSet,
    /// The pairings that the participant would like to receive.
    pub desired_ships: NameSet,
    /// The characters that the participant will not make a gift of.
    pub banned_characters: NameSet,
    /// The pairings that the participant will not make a gift of.
    pub banned_ships: NameSet,
}

/// A participant as plain values.
pub ghost struct ParticipantView {
    pub email: Seq<char>,
    pub desired_characters: Set<Seq<char>>,
    pub desired_ships: Set<Seq<char>>,
    pub banned_characters: Set<Seq<char>>,
    pub banned_ships: Set<Seq<char>>,
}

/// How many of a giftee's wishes a gifter must be able to fulfil.
#[derive(Clone, Copy, Debug, PartialEq, Eq)]
pub struct Quota {
    /// The least number of desired characters that the gifter must not ban.
    pub characters: usize,
    /// The least number of desired pairings that the gifter must not ban.
    pub ships: usize,
}

impl View for Row {
    type V = Map<Seq<char>, Seq<char>>;

    closed spec fn view(&self) -> Map<Seq<char>, Seq<char>> {
        Map::new(|k: Seq<char>| self.cells.map().contains_key(k), |k: Seq<char>| self.cells.map()[k]@)
    }
}

impl Row {
    /// The cells stand in the order of their headers, each header once.
    pub closed spec fn wf(&self) -> bool {
        self.cells.wf()
    }

    /// The row without values.
    pub fn new() -> (out: Row)
        ensures
            out.wf(),
            out@ == Map::<Seq<char>, Seq<char>>::empty(),
    {
        let out = Row { cells: Table::new() };
        assert(out@ =~= Map::<Seq<char>, Seq<char>>::empty());
        out
    }

    /// Puts `value` under `header`, in place of what stood there.
    pub fn insert(&mut self, header: String, value: String)
        requires
            old(self).wf(),
        ensures
            final(self).wf(),
            final(self)@ == old(self)@.insert(header@, value@),
    {
        let ghost h = header@;
        let ghost v = value@;
        self.cells.insert(header, value);
        assert(self@ =~= old(self)@.insert(h, v));
    }

    /// Takes the value under `header` out of the row.
    pub fn take(&mut self, header: &str) -> (out: Option<String>)
        requires
            old(self).wf(),
        ensures
            final(self).wf(),
            final(self)@ == old(self)@.remove(header@),
            out is Some <==> old(self)@.contains_key(header@),
            out matches Some(value) ==> value@ == old(self)@[header@],
    {
        let out = self.cells.remove(header);
        assert(self@ =~= old(self)@.remove(header@));
        out
    }
}

impl MissingColumn {
    /// The words that report the missing column.
    pub open spec fn spec_message(&self) -> Seq<char> {
        match self {
            MissingColumn::Email => "email column not found"@,
            MissingColumn::DesiredCharacters => "desired characters column not found"@,
            MissingColumn::BannedCharacters => "banned characters column not found"@,
            MissingColumn::DesiredShips => "desired ships column not found"@,
            MissingColumn::BannedShips => "banned ships column not found"@,
        }
    }

    /// The words that report the missing column.
    pub fn message(&self) -> (out: String)
        ensures
            out@ == self.spec_message(),
    {
        match self {
            MissingColumn::Email => "email column not found".to_owned(),
            MissingColumn::DesiredCharacters => "desired characters column not found".to_owned(),
            MissingColumn::BannedCharacters => "banned characters column not found".to_owned(),
            MissingColumn::DesiredShips => "desired ships column not found".to_owned(),
            MissingColumn::BannedShips => "banned ships column not found".to_owned(),
        }
    }
}

impl View for Participant {
    type V = ParticipantView;

    open spec fn view(&self) -> ParticipantView {
        ParticipantView {
            email: self.email@,
            desired_characters: self.desired_characters.set(),
            desired_ships: self.desired_ships.set(),
            banned_characters: self.banned_characters.set(),
            banned_ships: self.banned_ships.set(),
        }
    }
}

impl ParticipantView {
    /// How many of `giftee`'s desired characters this participant does not ban.
    pub open spec fn kept_characters(&self, giftee: ParticipantView) -> nat {
        giftee.desired_characters.difference(self.banned_characters).len()
    }

    /// How many of `giftee`'s desired pairings this participant does not ban.
    pub open spec fn kept_ships(&self, giftee: ParticipantView) -> nat {
        giftee.desired_ships.difference(self.banned_ships).len()
    }

    /// Whether this participant may give to `giftee`: enough of the giftee's
    /// desired characters, and enough of the desired pairings, are not banned.
    pub open spec fn can_make_for(&self, giftee: ParticipantView, characters: nat, ships: nat) -> bool {
        self.kept_characters(giftee) >= characters && self.kept_ships(giftee) >= ships
    }
}

impl Participant {
    /// The four sets are in order.
    pub open spec fn wf(&self) -> bool {
        &&& self.desired_characters.wf()
        &&& self.desired_ships.wf()
        &&& self.banned_characters.wf()
        &&& self.banned_ships.wf()
    }

    /// Whether this participant may give to `giftee`.
    pub fn can_make_for(&self, giftee: &Participant, quota: &Quota) -> (may: bool)
        requires
            self.wf(),
            giftee.wf(),
        ensures
            may == self@.can_make_for(giftee@, quota.characters as nat, quota.ships as nat),
    {
        if giftee.desired_characters.count_outside(&self.banned_characters) < quota.characters {
            return false;
        }
        if giftee.desired_ships.count_outside(&self.banned_ships) < quota.ships {
            return false;
        }
        true
    }
}

impl Cfg {
    /// The rule tables are in order.
    pub open spec fn wf(&self) -> bool {
        self.base.wf()
    }

    /// The participant that a row describes, or the first column that the row
    /// lacks. The columns are taken out of the row one after the other: email,
    /// desired characters, banned characters, desired pairings, banned
    /// pairings. So a header that two columns share serves the first of them
    /// only.
    pub open spec fn spec_process_participant(&self, row: Map<Seq<char>, Seq<char>>) -> Result<
        ParticipantView,
        MissingColumn,
    > {
        let c = self.columns;
        let row1 = row.remove(c.email@);
        let row2 = row1.remove(c.desired_characters@);
        let row3 = row2.remove(c.banned_characters@);
        let row4 = row3.remove(c.desired_ships@);
        if !row.contains_key(c.email@) {
            Err(MissingColumn::Email)
        } else if !row1.contains_key(c.desired_characters@) {
            Err(MissingColumn::DesiredCharacters)
        } else if !row2.contains_key(c.banned_characters@) {
            Err(MissingColumn::BannedCharacters)
        } else if !row3.contains_key(c.desired_ships@) {
            Err(MissingColumn::DesiredShips)
        } else if !row4.contains_key(c.banned_ships@) {
            Err(MissingColumn::BannedShips)
        } else {
            Ok(
                ParticipantView {
                    email: row[c.email@],
                    desired_characters: self.base.spec_characters(
                        without_parentheticals(row1[c.desired_characters@]),
                    ),
                    banned_characters: self.base.spec_characters(
                        without_parentheticals(row2[c.banned_characters@]),
                    ),
                    desired_ships: self.base.spec_ships(without_parentheticals(row3[c.desired_ships@])),
                    banned_ships: self.base.spec_ships(without_parentheticals(row4[c.banned_ships@])),
                },
            )
        }
    }

    /// Makes a participant from a row of the survey.
    pub fn process_participant(&self, row: Row) -> (out: Result<Participant, MissingColumn>)
        requires
            self.wf(),
            row.wf(),
        ensures
            match out {
                Ok(p) => p.wf() && self.spec_process_participant(row@) == Ok::<ParticipantView, MissingColumn>(p@),
                Err(e) => self.spec_process_participant(row@) == Err::<ParticipantView, MissingColumn>(e),
            },
    {
        let mut row = row;
        let email = match row.take(self.columns.email.as_str()) {
            Some(value) => value,
            None => {
                return Err(MissingColumn::Email);
            },
        };
        let desired_characters = match row.take(self.columns.desired_characters.as_str()) {
            Some(value) => self.base.process_characters(value),
            None => {
                return Err(MissingColumn::DesiredCharacters);
            },
        };
        let banned_characters = match row.take(self.columns.banned_characters.as_str()) {
            Some(value) => self.base.process_characters(value),
            None => {
                return Err(MissingColumn::BannedCharacters);
            },
        };
        let desired_ships = match row.take(self.columns.desired_ships.as_str()) {
            Some(value) => self.base.process_ships(value),
            None => {
                return Err(MissingColumn::DesiredShips);
            },
        };
        let banned_ships = match row.take(self.columns.banned_ships.as_str()) {
            Some(value) => self.base.process_ships(value),
            None => {
                return Err(MissingColumn::BannedShips);
            },
        };
        Ok(Participant { email, desired_characters, desired_ships, banned_characters, banned_ships })
    }
}

} // verus!
