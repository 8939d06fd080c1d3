//! Text of the answers of the Magic: the Gathering commands `/have` and
//! `/need`.

use serenity::model::id::{ChannelId, UserId};
use serenity::model::mention::Mentionable;
use vstd::prelude::*;

use crate::mtg::card_list::{CardList, ListError, MAX_FILE_SIZE};
use crate::mtg::store::{Match, Wanted};
use crate::text::{
    byte_len, byte_len_capped, decimal, join_with, lemma_byte_len_concat, lemma_byte_len_widths,
    lemma_decimal_u64_bytes, push_char, push_decimal, widths,
};

verus! {

/// Discord refuses messages over 2000 characters.
pub const MESSAGE_LIMIT: usize = 2000;

/// Cards named next to a player in the public answer, the private message
/// carries the full list.
pub const PREVIEW_CARDS: usize = 5;

/// Room kept for the line announcing what was left out.
pub const OVERFLOW_ROOM: usize = 40;

/// Tells the member what is wrong with the file they attached.
pub fn explain(error: ListError, filename: &str) -> (r: String)
    ensures
        r@ == (match error {
            ListError::UnknownColumns => "Les colonnes de `"@ + filename@
                + "` ne sont pas reconnues, il faut une colonne `Name` et une colonne `Quantity`, comme dans un export ManaBox."@,
            ListError::Empty => "Aucune carte n'a été trouvée dans `"@ + filename@
                + "`. Attendu un export ManaBox (`.csv`) ou une carte par ligne (`.txt`)."@,
        }),
{
    match error {
        ListError::UnknownColumns => {
            let mut r = String::from_str("Les colonnes de `");
            r.append(filename);
            r.append(
                "` ne sont pas reconnues, il faut une colonne `Name` et une colonne `Quantity`, comme dans un export ManaBox.",
            );
            r
        },
        ListError::Empty => {
            let mut r = String::from_str("Aucune carte n'a été trouvée dans `");
            r.append(filename);
            r.append("`. Attendu un export ManaBox (`.csv`) ou une carte par ligne (`.txt`).");
            r
        },
    }
}

/// Names of wanted cards, in order.
pub open spec fn wanted_names(cards: Seq<Wanted>) -> Seq<Seq<char>> {
    cards.map_values(|w: Wanted| w.name@)
}

/// The first `PREVIEW_CARDS` names separated by commas, followed by the number
/// of names left out when there are more.
pub open spec fn preview_spec(names: Seq<Seq<char>>) -> Seq<char> {
    if names.len() > PREVIEW_CARDS {
        join_with(names.take(PREVIEW_CARDS as int), ", "@) + ", … (+"@ + decimal(
            (names.len() - PREVIEW_CARDS) as nat,
        ) + ")"@
    } else {
        join_with(names, ", "@)
    }
}

/// First few card names of a match, for the public answer.
pub fn preview(cards: &[Wanted]) -> (r: String)
    ensures
        r@ == preview_spec(wanted_names(cards@)),
{
    let ghost names = wanted_names(cards@);
    let count = if cards.len() < PREVIEW_CARDS { cards.len() } else { PREVIEW_CARDS };
    let mut r = String::new();
    let mut i: usize = 0;
    assert(r@ =~= join_with(names.take(0), ", "@));
    while i < count
        invariant
            count <= cards@.len(),
            names == wanted_names(cards@),
            i <= count,
            r@ == join_with(names.take(i as int), ", "@),
        decreases count - i,
    {
        let ghost before = r@;
        assert(names.take(i + 1).drop_last() == names.take(i as int));
        assert(names.take(i + 1).last() == cards@[i as int].name@);
        if i > 0 {
            r.append(", ");
        } else {
            assert(names.take(1) =~= seq![names[0]]);
            assert(before =~= Seq::<char>::empty());
        }
        r.append(cards[i].name.as_str());
        if i == 0 {
            assert(r@ =~= names[0]);
        }
        i += 1;
    }
    if cards.len() > PREVIEW_CARDS {
        r.append(", … (+");
        push_decimal(&mut r, (cards.len() - PREVIEW_CARDS) as u64);
        r.append(")");
    } else {
        assert(names.take(count as int) == names);
    }
    r
}

/// Texts of `lines`, in order.
pub open spec fn texts(lines: Seq<String>) -> Seq<Seq<char>> {
    lines.map_values(|l: String| l@)
}

/// Number of the first `lines` that fit after a text of `used` bytes, each
/// taking its own bytes and a line feed, while room is kept for the line
/// announcing what was left out.
pub open spec fn fitting_lines(used: nat, lines: Seq<Seq<char>>) -> nat
    decreases lines.len(),
{
    if lines.len() == 0 {
        0
    } else if used + byte_len(lines[0]) + 1 + OVERFLOW_ROOM > MESSAGE_LIMIT {
        0
    } else {
        1 + fitting_lines(used + byte_len(lines[0]) + 1, lines.drop_first())
    }
}

/// `header` followed by `lines`, each on a line of its own.
pub open spec fn block(header: Seq<char>, lines: Seq<Seq<char>>) -> Seq<char>
    decreases lines.len(),
{
    if lines.len() == 0 {
        header
    } else {
        block(header, lines.drop_last()) + seq!['\n'] + lines.last()
    }
}

/// The lines under the header, as many as fit, and a last line telling how
/// many were left out when some were.
pub open spec fn message_spec(header: Seq<char>, lines: Seq<Seq<char>>) -> Seq<char> {
    let shown = fitting_lines(byte_len(header), lines);
    if shown < lines.len() {
        block(header, lines.take(shown as int)) + "\n… et "@ + decimal((lines.len() - shown) as nat)
            + " de plus."@
    } else {
        block(header, lines)
    }
}

/// Bytes `lines` take once each is put on a line of its own.
pub open spec fn lines_bytes(lines: Seq<Seq<char>>) -> nat
    decreases lines.len(),
{
    if lines.len() == 0 {
        0
    } else {
        byte_len(lines[0]) + 1 + lines_bytes(lines.drop_first())
    }
}

proof fn lemma_fitting_all(used: nat, lines: Seq<Seq<char>>)
    requires
        used + lines_bytes(lines) + OVERFLOW_ROOM <= MESSAGE_LIMIT,
    ensures
        fitting_lines(used, lines) == lines.len(),
    decreases lines.len(),
{
    if lines.len() > 0 {
        lemma_fitting_all(used + byte_len(lines[0]) + 1, lines.drop_first());
    }
}

/// A message whose header and lines all fit keeps every line and announces
/// nothing left out.
pub proof fn lemma_all_lines_kept(header: Seq<char>, lines: Seq<Seq<char>>)
    requires
        byte_len(header) + lines_bytes(lines) + OVERFLOW_ROOM <= MESSAGE_LIMIT,
    ensures
        message_spec(header, lines) == block(header, lines),
{
    lemma_fitting_all(byte_len(header), lines);
}

fn line_fits(message: &String, line: &String) -> (r: bool)
    ensures
        r == (byte_len(message@) + byte_len(line@) + 1 + OVERFLOW_ROOM <= MESSAGE_LIMIT),
{
    let m = byte_len_capped(message.as_str(), 1959);
    if m > 1959 {
        return false;
    }
    let l = byte_len_capped(line.as_str(), 1959 - m);
    l <= 1959 - m
}

/// Joins the lines under the header, dropping the tail that would not fit in a
/// Discord message.
pub fn build_message(header: &str, lines: &[String]) -> (r: String)
    ensures
        r@ == message_spec(header@, texts(lines@)),
        byte_len(header@) + 1 + OVERFLOW_ROOM <= MESSAGE_LIMIT ==> byte_len(r@) <= MESSAGE_LIMIT,
{
    let ghost ls = texts(lines@);
    let mut message = String::from_str(header);
    let mut shown: usize = 0;
    assert(ls.skip(0) == ls);
    assert(ls.take(0) =~= Seq::<Seq<char>>::empty());
    while shown < lines.len() && line_fits(&message, &lines[shown])
        invariant
            ls == texts(lines@),
            shown <= lines@.len(),
            message@ == block(header@, ls.take(shown as int)),
            fitting_lines(byte_len(header@), ls) == shown + fitting_lines(
                byte_len(message@),
                ls.skip(shown as int),
            ),
            shown > 0 ==> byte_len(message@) + OVERFLOW_ROOM <= MESSAGE_LIMIT,
            shown == 0 ==> message@ == header@,
        decreases lines@.len() - shown,
    {
        let ghost before = message@;
        let ghost line = ls[shown as int];
        assert(ls.skip(shown as int)[0] == line);
        assert(ls.skip(shown as int).drop_first() == ls.skip(shown + 1));
        assert(ls.take(shown + 1).drop_last() == ls.take(shown as int));
        assert(ls.take(shown + 1).last() == line);
        push_char(&mut message, '\n');
        message.append(lines[shown].as_str());
        proof {
            assert(message@ == before + seq!['\n'] + line);
            lemma_byte_len_concat(before, seq!['\n']);
            lemma_byte_len_concat(before + seq!['\n'], line);
            lemma_byte_len_widths(seq!['\n']);
            reveal_with_fuel(widths, 2);
        }
        shown += 1;
    }
    proof {
        if shown < lines.len() {
            assert(ls.skip(shown as int)[0] == ls[shown as int]);
        } else {
            assert(ls.take(shown as int) == ls);
        }
    }
    if shown < lines.len() {
        let ghost shown_text = message@;
        message.append("\n… et ");
        push_decimal(&mut message, (lines.len() - shown) as u64);
        message.append(" de plus.");
        proof {
            let d = decimal((lines@.len() - shown) as nat);
            lemma_decimal_u64_bytes((lines@.len() - shown) as u64);
            reveal_strlit("\n… et ");
            reveal_strlit(" de plus.");
            lemma_byte_len_widths("\n… et "@);
            lemma_byte_len_widths(" de plus."@);
            reveal_with_fuel(widths, 10);
            lemma_byte_len_concat(shown_text, "\n… et "@);
            lemma_byte_len_concat(shown_text + "\n… et "@, d);
            lemma_byte_len_concat(shown_text + "\n… et "@ + d, " de plus."@);
        }
    }
    message
}


/// How Discord writes a mention of the user with id `id`.
pub open spec fn user_mention_text(id: u64) -> Seq<char> {
    "<@"@ + decimal(id as nat) + ">"@
}

/// How Discord writes a mention of the channel with id `id`.
pub open spec fn channel_mention_text(id: u64) -> Seq<char> {
    "<#"@ + decimal(id as nat) + ">"@
}

/// `UserId::mention` of serenity, displayed: `<@`, the id in decimal, `>`,
/// as the `Display` impl of serenity's `Mention` writes it. Serenity refuses
/// the id zero.
#[verifier::external_body]
fn user_mention(id: u64) -> (r: String)
    requires
        id != 0,
    ensures
        r@ == user_mention_text(id),
{
    UserId::new(id).mention().to_string()
}

/// `ChannelId::mention` of serenity, displayed: `<#`, the id in decimal, `>`,
/// as the `Display` impl of serenity's `Mention` writes it. Serenity refuses
/// the id zero.
#[verifier::external_body]
fn channel_mention(id: u64) -> (r: String)
    requires
        id != 0,
    ensures
        r@ == channel_mention_text(id),
{
    ChannelId::new(id).mention().to_string()
}

/// Answer of `/have` once a list is registered, telling the size of the list
/// replaced when there was one.
pub fn registered_answer(cards: usize, copies: u32, filename: &str, previous: Option<usize>) -> (r:
    String)
    ensures
        r@ == "Liste enregistrée : **"@ + decimal(cards as nat) + " cartes** ("@ + decimal(
            copies as nat,
        ) + " exemplaires) depuis `"@ + filename@ + "`."@ + match previous {
            Some(p) => "\nElle remplace ta liste précédente de "@ + decimal(p as nat) + " cartes."@,
            None => Seq::<char>::empty(),
        },
{
    let mut r = String::from_str("Liste enregistrée : **");
    push_decimal(&mut r, cards as u64);
    r.append(" cartes** (");
    push_decimal(&mut r, copies as u64);
    r.append(" exemplaires) depuis `");
    r.append(filename);
    r.append("`.");
    let ghost base = r@;
    match previous {
        Some(p) => {
            r.append("\nElle remplace ta liste précédente de ");
            push_decimal(&mut r, p as u64);
            r.append(" cartes.");
        },
        None => {
            assert(base + Seq::<char>::empty() =~= base);
        },
    }
    r
}

/// Answer of `/need` when no member holds any of the wanted cards.
pub fn nobody_answer(cards: usize, filename: &str) -> (r: String)
    ensures
        r@ == "Aucun joueur ne possède les "@ + decimal(cards as nat) + " cartes de `"@ + filename@
            + "`."@,
{
    let mut r = String::from_str("Aucun joueur ne possède les ");
    push_decimal(&mut r, cards as u64);
    r.append(" cartes de `");
    r.append(filename);
    r.append("`.");
    r
}

/// Refusal of an attachment over `MAX_FILE_SIZE` bytes, nothing for one that
/// is small enough.
pub fn size_refusal(filename: &str, size: u32) -> (r: Option<String>)
    ensures
        size > MAX_FILE_SIZE ==> (r matches Some(text) && text@ == "`"@ + filename@
            + "` est trop volumineux, la limite est de "@ + decimal((MAX_FILE_SIZE / 1024) as nat)
            + " Kio."@),
        size <= MAX_FILE_SIZE ==> r is None,
{
    if size > MAX_FILE_SIZE {
        let mut r = String::from_str("`");
        r.append(filename);
        r.append("` est trop volumineux, la limite est de ");
        push_decimal(&mut r, (MAX_FILE_SIZE / 1024) as u64);
        r.append(" Kio.");
        Some(r)
    } else {
        None
    }
}

/// Refusal of an attachment that is not UTF-8 text.
pub fn encoding_refusal(filename: &str) -> (r: String)
    ensures
        r@ == "`"@ + filename@ + "` doit être un fichier texte encodé en UTF-8."@,
{
    let mut r = String::from_str("`");
    r.append(filename);
    r.append("` doit être un fichier texte encodé en UTF-8.");
    r
}

/// Line of the private message naming one wanted card, with the number of
/// copies asked for and, in brackets, the number held.
pub open spec fn wanted_line(w: Wanted) -> Seq<char> {
    "- "@ + decimal(w.requested as nat) + "× "@ + w.name@ + " (tu en as "@ + decimal(
        w.owned as nat,
    ) + ")"@
}

/// Header of the private message sent to an owner of wanted cards.
pub open spec fn private_header(author: u64, guild_name: Option<Seq<char>>, channel: u64, count: nat) -> Seq<
    char,
> {
    user_mention_text(author) + " cherche des cartes sur **"@ + match guild_name {
        Some(name) => name,
        None => "ce serveur"@,
    } + "** ("@ + channel_mention_text(channel) + "), tu en possèdes **"@ + decimal(count)
        + "** :"@
}

/// Private message telling an owner which of their cards are wanted, with the
/// number of copies asked for and, in brackets, the number they hold. The
/// guild is named "ce serveur" when its name is unknown.
pub fn private_message(author: u64, guild_name: Option<&str>, channel: u64, cards: &[Wanted]) -> (r:
    String)
    requires
        author != 0,
        channel != 0,
    ensures
        r@ == message_spec(
            private_header(
                author,
                match guild_name {
                    Some(name) => Some(name@),
                    None => None,
                },
                channel,
                cards@.len() as nat,
            ),
            cards@.map_values(|w: Wanted| wanted_line(w)),
        ),
{
    let mut header = user_mention(author);
    header.append(" cherche des cartes sur **");
    match guild_name {
        Some(name) => header.append(name),
        None => header.append("ce serveur"),
    }
    header.append("** (");
    let channel_text = channel_mention(channel);
    header.append(channel_text.as_str());
    header.append("), tu en possèdes **");
    push_decimal(&mut header, cards.len() as u64);
    header.append("** :");

    let mut lines: Vec<String> = Vec::new();
    let mut i: usize = 0;
    while i < cards.len()
        invariant
            i <= cards@.len(),
            texts(lines@) == cards@.take(i as int).map_values(|w: Wanted| wanted_line(w)),
        decreases cards@.len() - i,
    {
        let ghost before = lines@;
        let mut line = String::from_str("- ");
        push_decimal(&mut line, cards[i].requested as u64);
        line.append("× ");
        line.append(cards[i].name.as_str());
        line.append(" (tu en as ");
        push_decimal(&mut line, cards[i].owned as u64);
        line.append(")");
        assert(line@ == wanted_line(cards@[i as int]));
        lines.push(line);
        assert(cards@.take(i + 1) == cards@.take(i as int).push(cards@[i as int]));
        assert(texts(lines@) =~= texts(before).push(line@));
        assert(texts(lines@) =~= cards@.take(i + 1).map_values(|w: Wanted| wanted_line(w)));
        i += 1;
    }
    assert(cards@.take(cards@.len() as int) == cards@);
    build_message(header.as_str(), &lines)
}

/// Line of the public answer naming one owner, the number of their wanted
/// cards and the first of them.
pub open spec fn owner_line(m: Match) -> Seq<char> {
    "- "@ + user_mention_text(m.user_id) + " — "@ + decimal(m.cards@.len() as nat) + " cartes : "@
        + preview_spec(wanted_names(m.cards@))
}

/// Header of the public answer of `/need`.
pub open spec fn report_header(filename: Seq<char>, owners: nat, wanted: nat) -> Seq<char> {
    "**"@ + decimal(owners) + "** "@ + (if owners > 1 {
        "joueurs possèdent"@
    } else {
        "joueur possède"@
    }) + " des "@ + decimal(wanted) + " cartes de `"@ + filename + "` :"@
}

/// Last line of the public answer: whether every owner got the private message.
pub open spec fn delivery_line(unreachable: Seq<u64>) -> Seq<char> {
    if unreachable.len() == 0 {
        "Chacun a reçu sa liste en message privé."@
    } else {
        "Message privé impossible pour "@ + join_with(
            unreachable.map_values(|u: u64| user_mention_text(u)),
            ", "@,
        ) + ", contacte-les directement."@
    }
}

/// Public answer of `/need`, one line per player holding wanted cards.
pub fn public_report(filename: &str, wanted: &CardList, matches: &[Match], unreachable: &[u64]) -> (r:
    String)
    requires
        forall|i: int| 0 <= i < matches@.len() ==> (#[trigger] matches@[i]).user_id != 0,
        forall|i: int| 0 <= i < unreachable@.len() ==> #[trigger] unreachable@[i] != 0,
    ensures
        r@ == message_spec(
            report_header(filename@, matches@.len() as nat, wanted.cards@.len() as nat),
            matches@.map_values(|m: Match| owner_line(m)).push(delivery_line(unreachable@)),
        ),
{
    let mut header = String::from_str("**");
    push_decimal(&mut header, matches.len() as u64);
    header.append("** ");
    if matches.len() > 1 {
        header.append("joueurs possèdent");
    } else {
        header.append("joueur possède");
    }
    header.append(" des ");
    push_decimal(&mut header, wanted.len() as u64);
    header.append(" cartes de `");
    header.append(filename);
    header.append("` :");

    let mut lines: Vec<String> = Vec::new();
    let mut i: usize = 0;
    while i < matches.len()
        invariant
            i <= matches@.len(),
            forall|k: int| 0 <= k < matches@.len() ==> (#[trigger] matches@[k]).user_id != 0,
            texts(lines@) == matches@.take(i as int).map_values(|m: Match| owner_line(m)),
        decreases matches@.len() - i,
    {
        let mut line = String::from_str("- ");
        let mention = user_mention(matches[i].user_id);
        line.append(mention.as_str());
        line.append(" — ");
        push_decimal(&mut line, matches[i].cards.len() as u64);
        line.append(" cartes : ");
        let names = preview(matches[i].cards.as_slice());
        line.append(names.as_str());
        assert(line@ == owner_line(matches@[i as int]));
        let ghost before = lines@;
        lines.push(line);
        assert(matches@.take(i + 1) == matches@.take(i as int).push(matches@[i as int]));
        assert(texts(lines@) =~= texts(before).push(line@));
        assert(texts(lines@) =~= matches@.take(i + 1).map_values(|m: Match| owner_line(m)));
        i += 1;
    }
    assert(matches@.take(matches@.len() as int) == matches@);

    let ghost owners = texts(lines@);
    if unreachable.len() == 0 {
        lines.push(String::from_str("Chacun a reçu sa liste en message privé."));
    } else {
        let mut closing = String::from_str("Message privé impossible pour ");
        let ghost start = closing@;
        let ghost mentions = unreachable@.map_values(|u: u64| user_mention_text(u));
        let mut k: usize = 0;
        let mut names = String::new();
        assert(names@ =~= join_with(mentions.take(0), ", "@));
        while k < unreachable.len()
            invariant
                k <= unreachable@.len(),
                mentions == unreachable@.map_values(|u: u64| user_mention_text(u)),
                forall|j: int| 0 <= j < unreachable@.len() ==> #[trigger] unreachable@[j] != 0,
                names@ == join_with(mentions.take(k as int), ", "@),
            decreases unreachable@.len() - k,
        {
            let ghost before = names@;
            assert(mentions.take(k + 1).drop_last() == mentions.take(k as int));
            assert(mentions.take(k + 1).last() == user_mention_text(unreachable@[k as int]));
            if k > 0 {
                names.append(", ");
            } else {
                assert(mentions.take(1) =~= seq![mentions[0]]);
                assert(before =~= Seq::<char>::empty());
            }
            let mention = user_mention(unreachable[k]);
            names.append(mention.as_str());
            if k == 0 {
                assert(names@ =~= mentions[0]);
            }
            k += 1;
        }
        assert(mentions.take(unreachable@.len() as int) == mentions);
        closing.append(names.as_str());
        closing.append(", contacte-les directement.");
        lines.push(closing);
    }
    assert(texts(lines@) =~= owners.push(delivery_line(unreachable@)));
    build_message(header.as_str(), &lines)
}

} // verus!
