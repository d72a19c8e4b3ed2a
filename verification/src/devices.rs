//! Playback devices: naming them, telling USB DACs apart, and picking one.
use crate::text::{chars_of, contains_run, decimal, lower, lower_of, occurs, push_decimal};
use vstd::prelude::*;
use vstd::string::*;

verus! {

#[derive(Clone, Copy, Debug, PartialEq, Eq, Structural)]
pub enum DeviceKind {
    Usb,
    Internal,
    Other,
}

#[derive(Debug)]
pub struct DeviceInfo {
    /// The name to open the device by.
    pub id: String,
    pub name: String,
    pub description: String,
    pub kind: DeviceKind,
}

/// The contents of a [`DeviceInfo`].
pub struct DeviceView {
    pub id: Seq<char>,
    pub name: Seq<char>,
    pub description: Seq<char>,
    pub kind: DeviceKind,
}

impl View for DeviceInfo {
    type V = DeviceView;

    open spec fn view(&self) -> DeviceView {
        DeviceView {
            id: self.id@,
            name: self.name@,
            description: self.description@,
            kind: self.kind,
        }
    }
}

impl Clone for DeviceInfo {
    fn clone(&self) -> (r: Self)
        ensures
            r@ == self@,
    {
        DeviceInfo {
            id: self.id.clone(),
            name: self.name.clone(),
            description: self.description.clone(),
            kind: self.kind,
        }
    }
}

impl DeviceInfo {
    pub fn is_usb(&self) -> (b: bool)
        ensures
            b == (self@.kind == DeviceKind::Usb),
    {
        self.kind == DeviceKind::Usb
    }
}

/// A playback port of a sound card.
pub struct PcmInfo {
    pub dev: u32,
    /// Empty where the driver gives none.
    pub name: String,
}

/// What the driver says of a sound card.
pub struct CardInfo {
    pub index: u32,
    pub id: Option<String>,
    pub name: Option<String>,
    pub driver: Option<String>,
    pub longname: Option<String>,
    pub pcms: Vec<PcmInfo>,
}

pub open spec fn or_empty(s: Option<String>) -> Seq<char> {
    match s {
        Some(t) => t@,
        None => Seq::empty(),
    }
}

impl CardInfo {
    /// The card's identifier; its number where it has none.
    pub open spec fn id_text(self) -> Seq<char> {
        match self.id {
            Some(t) => t@,
            None => decimal(self.index as nat),
        }
    }

    /// The card's name; its identifier where it has none.
    pub open spec fn name_text(self) -> Seq<char> {
        match self.name {
            Some(t) => t@,
            None => self.id_text(),
        }
    }

    /// The entry of one of the card's ports.
    pub open spec fn entry(self, pcm: PcmInfo) -> DeviceView {
        DeviceView {
            id: "hw:CARD="@ + self.id_text() + ",DEV="@ + decimal(pcm.dev as nat),
            name: self.name_text(),
            description: if pcm.name@.len() == 0 {
                self.name_text()
            } else {
                self.name_text() + " \u{2014} "@ + pcm.name@
            },
            kind: kind_of(or_empty(self.driver), or_empty(self.longname)),
        }
    }
}

/// A card is a USB device if its driver or long name says so, in any case.
pub open spec fn kind_of(driver: Seq<char>, longname: Seq<char>) -> DeviceKind {
    if occurs(lower(driver + " "@ + longname), "usb"@) {
        DeviceKind::Usb
    } else {
        DeviceKind::Internal
    }
}

pub fn classify(driver: &str, longname: &str) -> (k: DeviceKind)
    ensures
        k == kind_of(driver@, longname@),
{
    let mut hay = String::from_str(driver);
    hay.append(" ");
    hay.append(longname);
    let chars = chars_of(hay.as_str());
    let low = lower_of(chars.as_slice());
    let usb = chars_of("usb");
    if contains_run(low.as_slice(), usb.as_slice()) {
        DeviceKind::Usb
    } else {
        DeviceKind::Internal
    }
}

/// The entries of the first `n` ports of a card.
pub open spec fn card_entries(card: CardInfo, n: nat) -> Seq<DeviceView>
    decreases n,
{
    if n == 0 {
        Seq::empty()
    } else {
        card_entries(card, (n - 1) as nat).push(card.entry(card.pcms@[n - 1]))
    }
}

/// The entries of the first `n` cards, in the driver's order.
pub open spec fn entries(cards: Seq<CardInfo>, n: nat) -> Seq<DeviceView>
    decreases n,
{
    if n == 0 {
        Seq::empty()
    } else {
        entries(cards, (n - 1) as nat) + card_entries(
            cards[n - 1],
            cards[n - 1].pcms@.len(),
        )
    }
}

/// The entries of one kind, in order.
pub open spec fn of_kind(s: Seq<DeviceView>, kind: DeviceKind) -> Seq<DeviceView>
    decreases s.len(),
{
    if s.len() == 0 {
        Seq::empty()
    } else {
        let rest = of_kind(s.drop_last(), kind);
        if s.last().kind == kind {
            rest.push(s.last())
        } else {
            rest
        }
    }
}

/// USB devices first, then internal ones, then the rest; otherwise in order.
pub open spec fn ranked(s: Seq<DeviceView>) -> Seq<DeviceView> {
    of_kind(s, DeviceKind::Usb) + of_kind(s, DeviceKind::Internal) + of_kind(s, DeviceKind::Other)
}

pub open spec fn views(s: Seq<DeviceInfo>) -> Seq<DeviceView> {
    s.map_values(|d: DeviceInfo| d@)
}

fn card_entry(card: &CardInfo, pcm: &PcmInfo) -> (d: DeviceInfo)
    ensures
        d@ == card.entry(*pcm),
{
    let card_id: String = match &card.id {
        Some(t) => t.clone(),
        None => {
            let mut s = String::new();
            push_decimal(&mut s, card.index as u64);
            assert(s@ =~= decimal(card.index as nat));
            s
        },
    };
    let name: String = match &card.name {
        Some(t) => t.clone(),
        None => card_id.clone(),
    };
    let driver: String = match &card.driver {
        Some(t) => t.clone(),
        None => String::new(),
    };
    let longname: String = match &card.longname {
        Some(t) => t.clone(),
        None => String::new(),
    };
    assert(driver@ =~= or_empty(card.driver));
    assert(longname@ =~= or_empty(card.longname));
    let kind = classify(driver.as_str(), longname.as_str());
    let mut id = String::from_str("hw:CARD=");
    id.append(card_id.as_str());
    id.append(",DEV=");
    push_decimal(&mut id, pcm.dev as u64);
    let mut description = name.clone();
    if !pcm.name.as_str().is_empty() {
        description.append(" \u{2014} ");
        description.append(pcm.name.as_str());
    }
    DeviceInfo { id, name, description, kind }
}

fn push_kind(out: &mut Vec<DeviceInfo>, all: &Vec<DeviceInfo>, kind: DeviceKind)
    ensures
        views(final(out)@) == views(old(out)@) + of_kind(views(all@), kind),
{
    let ghost before = views(out@);
    assert(before + of_kind(views(all@.take(0)), kind) =~= before);
    for i in 0..all.len()
        invariant
            views(out@) == before + of_kind(views(all@.take(i as int)), kind),
    {
        let ghost s = views(all@.take(i + 1));
        assert(s.drop_last() =~= views(all@.take(i as int)));
        assert(s.last() == all@[i as int]@);
        if all[i].kind == kind {
            let d = all[i].clone();
            let ghost o = out@;
            out.push(d);
            assert(views(out@) =~= views(o).push(d@));
        }
        assert(views(out@) =~= before + of_kind(s, kind));
    }
    assert(all@.take(all@.len() as int) =~= all@);
}

/// The playback devices of the given cards.
pub fn list_devices(cards: &Vec<CardInfo>) -> (r: Vec<DeviceInfo>)
    ensures
        views(r@) == ranked(entries(cards@, cards@.len())),
{
    let mut all: Vec<DeviceInfo> = Vec::new();
    assert(views(all@) =~= entries(cards@, 0));
    for i in 0..cards.len()
        invariant
            views(all@) == entries(cards@, i as nat),
    {
        let card = &cards[i];
        let ghost before = views(all@);
        assert(before + card_entries(*card, 0) =~= before);
        for j in 0..card.pcms.len()
            invariant
                views(all@) == before + card_entries(*card, j as nat),
        {
            let d = card_entry(card, &card.pcms[j]);
            let ghost a = all@;
            all.push(d);
            assert(views(all@) =~= views(a).push(d@));
            assert(views(all@) =~= before + card_entries(*card, (j + 1) as nat));
        }
    }
    let mut out: Vec<DeviceInfo> = Vec::new();
    assert(views(out@) =~= Seq::empty());
    push_kind(&mut out, &all, DeviceKind::Usb);
    push_kind(&mut out, &all, DeviceKind::Internal);
    push_kind(&mut out, &all, DeviceKind::Other);
    assert(views(out@) =~= ranked(views(all@)));
    out
}

/// The device to use by default: the first USB one, else the first.
pub fn auto_pick(devices: &Vec<DeviceInfo>) -> (r: Option<DeviceInfo>)
    ensures
        r is None <==> devices@.len() == 0,
        r matches Some(d) ==> if has_usb(devices@) {
            exists|i: int|
                #![trigger devices@[i]]
                0 <= i < devices@.len() && d@ == devices@[i]@ && devices@[i]@.kind
                    == DeviceKind::Usb && forall|j: int|
                    0 <= j < i ==> (#[trigger] devices@[j])@.kind != DeviceKind::Usb
        } else {
            d@ == devices@[0]@
        },
{
    for i in 0..devices.len()
        invariant
            forall|j: int| 0 <= j < i ==> (#[trigger] devices@[j])@.kind != DeviceKind::Usb,
    {
        if devices[i].is_usb() {
            assert(devices@[i as int]@.kind == DeviceKind::Usb);
            return Some(devices[i].clone());
        }
    }
    if devices.len() > 0 {
        Some(devices[0].clone())
    } else {
        None
    }
}

/// Some device is a USB one.
pub open spec fn has_usb(devices: Seq<DeviceInfo>) -> bool {
    exists|i: int| 0 <= i < devices.len() && (#[trigger] devices[i])@.kind == DeviceKind::Usb
}

/// Whether a USB DAC is connected.
pub fn has_usb_dac(devices: &Vec<DeviceInfo>) -> (b: bool)
    ensures
        b == has_usb(devices@),
{
    for i in 0..devices.len()
        invariant
            forall|j: int| 0 <= j < i ==> (#[trigger] devices@[j])@.kind != DeviceKind::Usb,
    {
        if devices[i].is_usb() {
            assert(devices@[i as int]@.kind == DeviceKind::Usb);
            return true;
        }
    }
    false
}

/// A device is a USB device exactly if its driver or long name says so, in any case.
pub proof fn law_usb_is_told_by_name(
    driver: &str,
    longname: &str,
    k: DeviceKind,
    d: DeviceInfo,
    b: bool,
)
    requires
        call_ensures(classify, (driver, longname), k),
        call_ensures(DeviceInfo::is_usb, (&d,), b),
    ensures
        k == DeviceKind::Usb <==> occurs(lower(driver@ + seq![' '] + longname@), seq!['u', 's', 'b']),
        k == DeviceKind::Usb || k == DeviceKind::Internal,
        b <==> d.kind == DeviceKind::Usb,
{
    reveal_strlit(" ");
    reveal_strlit("usb");
    assert(" "@ =~= seq![' ']);
    assert("usb"@ =~= seq!['u', 's', 'b']);
}

/// By default the first USB device is used, and without one the first device; without any device
/// there is none.
pub proof fn law_first_usb_device_is_picked(
    devices: Vec<DeviceInfo>,
    r: Option<DeviceInfo>,
    b: bool,
    k: int,
)
    requires
        call_ensures(auto_pick, (&devices,), r),
        call_ensures(has_usb_dac, (&devices,), b),
    ensures
        r is None <==> devices@.len() == 0,
        b <==> exists|i: int|
            0 <= i < devices@.len() && (#[trigger] devices@[i]).kind == DeviceKind::Usb,
        0 <= k < devices@.len() && devices@[k].kind == DeviceKind::Usb && (forall|j: int|
            0 <= j < k ==> (#[trigger] devices@[j]).kind != DeviceKind::Usb) ==> (r matches Some(d)
            && d@ == devices@[k]@),
        devices@.len() > 0 && (forall|j: int|
            0 <= j < devices@.len() ==> (#[trigger] devices@[j]).kind != DeviceKind::Usb) ==> (
        r matches Some(d) && d@ == devices@[0]@),
{
    assert forall|i: int| 0 <= i < devices@.len() implies (#[trigger] devices@[i])@.kind
        == devices@[i].kind by {}
    if has_usb(devices@) {
        let i = choose|i: int|
            0 <= i < devices@.len() && (#[trigger] devices@[i])@.kind == DeviceKind::Usb;
        assert(devices@[i].kind == DeviceKind::Usb);
    }
    if 0 <= k < devices@.len() && devices@[k].kind == DeviceKind::Usb {
        assert(devices@[k]@.kind == DeviceKind::Usb);
        assert(has_usb(devices@));
    }
}

proof fn lemma_of_kind(s: Seq<DeviceView>, kind: DeviceKind, i: int) -> (n: int)
    requires
        0 <= i < s.len(),
        s[i].kind == kind,
    ensures
        0 <= n < of_kind(s, kind).len(),
        of_kind(s, kind)[n] == s[i],
    decreases s.len(),
{
    let t = s.drop_last();
    if i == s.len() - 1 {
        of_kind(t, kind).len() as int
    } else {
        let n = lemma_of_kind(t, kind, i);
        assert(t[i] == s[i]);
        n
    }
}

proof fn lemma_kind_len(s: Seq<DeviceView>)
    ensures
        of_kind(s, DeviceKind::Usb).len() + of_kind(s, DeviceKind::Internal).len() + of_kind(
            s,
            DeviceKind::Other,
        ).len() == s.len(),
        forall|i: int|
            0 <= i < of_kind(s, DeviceKind::Usb).len() ==> (#[trigger] of_kind(
                s,
                DeviceKind::Usb,
            )[i]).kind == DeviceKind::Usb,
        forall|i: int|
            0 <= i < of_kind(s, DeviceKind::Internal).len() ==> (#[trigger] of_kind(
                s,
                DeviceKind::Internal,
            )[i]).kind == DeviceKind::Internal,
        forall|i: int|
            0 <= i < of_kind(s, DeviceKind::Other).len() ==> (#[trigger] of_kind(
                s,
                DeviceKind::Other,
            )[i]).kind == DeviceKind::Other,
    decreases s.len(),
{
    if s.len() > 0 {
        lemma_kind_len(s.drop_last());
    }
}

/// How far in front a kind of device is listed.
pub open spec fn kind_rank(k: DeviceKind) -> int {
    match k {
        DeviceKind::Usb => 0,
        DeviceKind::Internal => 1,
        DeviceKind::Other => 2,
    }
}

/// The ports of the first `n` cards.
pub open spec fn port_count(cards: Seq<CardInfo>, n: nat) -> nat
    decreases n,
{
    if n == 0 {
        0
    } else {
        port_count(cards, (n - 1) as nat) + cards[n - 1].pcms@.len()
    }
}

proof fn lemma_entries_len(cards: Seq<CardInfo>, n: nat, c: int, p: int) -> (at: int)
    requires
        n <= cards.len(),
    ensures
        entries(cards, n).len() == port_count(cards, n),
        0 <= c < n && 0 <= p < cards[c].pcms@.len() ==> 0 <= at < entries(cards, n).len()
            && entries(cards, n)[at] == cards[c].entry(cards[c].pcms@[p]),
    decreases n,
{
    if n == 0 {
        0
    } else {
        let m = (n - 1) as nat;
        let before = lemma_entries_len(cards, m, c, p);
        lemma_card_entries(cards[m as int], cards[m as int].pcms@.len(), p);
        if c == m {
            entries(cards, m).len() + p
        } else {
            before
        }
    }
}

proof fn lemma_card_entries(card: CardInfo, n: nat, p: int)
    ensures
        card_entries(card, n).len() == n,
        0 <= p < n ==> card_entries(card, n)[p] == card.entry(card.pcms@[p]),
    decreases n,
{
    if n > 0 {
        lemma_card_entries(card, (n - 1) as nat, p);
    }
}

/// Every port of every card is listed, and nothing else: USB devices before internal ones, and
/// those before the rest.
pub proof fn law_every_port_is_listed(cards: Vec<CardInfo>, r: Vec<DeviceInfo>, c: int, p: int)
    requires
        call_ensures(list_devices, (&cards,), r),
        0 <= c < cards@.len(),
        0 <= p < cards@[c].pcms@.len(),
    ensures
        r@.len() == port_count(cards@, cards@.len()),
        forall|i: int, j: int|
            0 <= i < j < r@.len() ==> kind_rank((#[trigger] r@[i]).kind) <= kind_rank(
                (#[trigger] r@[j]).kind,
            ),
        exists|i: int|
            0 <= i < r@.len() && (#[trigger] r@[i])@ == cards@[c].entry(cards@[c].pcms@[p]),
{
    let n = cards@.len();
    let all = entries(cards@, n);
    let v = views(r@);
    let a = of_kind(all, DeviceKind::Usb);
    let b = of_kind(all, DeviceKind::Internal);
    let d = of_kind(all, DeviceKind::Other);
    let at = lemma_entries_len(cards@, n, c, p);
    lemma_kind_len(all);
    assert(v == a + b + d);
    assert(v.len() == r@.len());
    assert forall|i: int, j: int| 0 <= i < j < r@.len() implies kind_rank(
        (#[trigger] r@[i]).kind,
    ) <= kind_rank((#[trigger] r@[j]).kind) by {
        assert(v[i] == r@[i]@);
        assert(v[j] == r@[j]@);
        if i < a.len() {
            assert(v[i] == a[i]);
        } else if i < a.len() + b.len() {
            assert(v[i] == b[i - a.len()]);
        } else {
            assert(v[i] == d[i - a.len() - b.len()]);
        }
        if j < a.len() {
            assert(v[j] == a[j]);
        } else if j < a.len() + b.len() {
            assert(v[j] == b[j - a.len()]);
        } else {
            assert(v[j] == d[j - a.len() - b.len()]);
        }
    }
    let e = all[at];
    let m = lemma_of_kind(all, e.kind, at);
    let i: int = match e.kind {
        DeviceKind::Usb => m,
        DeviceKind::Internal => a.len() + m,
        DeviceKind::Other => a.len() + b.len() + m,
    };
    assert(v[i] == e);
    assert(v[i] == r@[i]@);
}

/// The entry of a port names card and port, by the card's identifier or its number, and describes
/// it by the card's name and the port's.
pub proof fn law_entries_name_card_and_port(card: CardInfo, pcm: PcmInfo)
    ensures
        ({
            let e = card.entry(pcm);
            let id = match card.id {
                Some(t) => t@,
                None => decimal(card.index as nat),
            };
            let name = match card.name {
                Some(t) => t@,
                None => id,
            };
            &&& e.id == "hw:CARD="@ + id + ",DEV="@ + decimal(pcm.dev as nat)
            &&& e.name == name
            &&& pcm.name@.len() == 0 ==> e.description == name
            &&& pcm.name@.len() > 0 ==> e.description == name + " \u{2014} "@ + pcm.name@
        }),
{
}

/// The entries of a kind among the first `n`.
pub open spec fn kind_count(s: Seq<DeviceView>, kind: DeviceKind, n: int) -> nat
    decreases n,
{
    if n <= 0 {
        0
    } else {
        kind_count(s, kind, n - 1) + if s[n - 1].kind == kind {
            1nat
        } else {
            0nat
        }
    }
}

proof fn lemma_kind_place(s: Seq<DeviceView>, kind: DeviceKind, i: int)
    requires
        0 <= i < s.len(),
        s[i].kind == kind,
    ensures
        kind_count(s, kind, i) < of_kind(s, kind).len(),
        of_kind(s, kind)[kind_count(s, kind, i) as int] == s[i],
        of_kind(s, kind).len() == kind_count(s, kind, s.len() as int),
    decreases s.len(),
{
    let t = s.drop_last();
    lemma_kind_same(s, t, kind, s.len() - 1);
    lemma_kind_total(s, kind);
    lemma_kind_total(t, kind);
    if i < t.len() {
        lemma_kind_place(t, kind, i);
        lemma_kind_same(s, t, kind, i);
    }
}

proof fn lemma_kind_total(s: Seq<DeviceView>, kind: DeviceKind)
    ensures
        of_kind(s, kind).len() == kind_count(s, kind, s.len() as int),
    decreases s.len(),
{
    if s.len() > 0 {
        lemma_kind_total(s.drop_last(), kind);
        lemma_kind_same(s, s.drop_last(), kind, s.len() - 1);
    }
}

proof fn lemma_kind_same(s: Seq<DeviceView>, t: Seq<DeviceView>, kind: DeviceKind, n: int)
    requires
        n <= s.len(),
        n <= t.len(),
        forall|i: int| 0 <= i < n ==> s[i] == t[i],
    ensures
        kind_count(s, kind, n) == kind_count(t, kind, n),
    decreases n,
{
    if n > 0 {
        lemma_kind_same(s, t, kind, n - 1);
    }
}

proof fn lemma_kind_grows(s: Seq<DeviceView>, kind: DeviceKind, i: int, j: int)
    requires
        0 <= i < j,
        s[i].kind == kind,
    ensures
        kind_count(s, kind, i) < kind_count(s, kind, j),
    decreases j,
{
    if i < j - 1 {
        lemma_kind_grows(s, kind, i, j - 1);
    }
}

/// Devices of the same kind keep the driver's order: a port that the driver lists before another
/// of its kind is listed before it.
pub proof fn law_same_kind_keeps_the_order(cards: Vec<CardInfo>, r: Vec<DeviceInfo>, i: int, j: int)
    requires
        call_ensures(list_devices, (&cards,), r),
        0 <= i < j < entries(cards@, cards@.len()).len(),
        entries(cards@, cards@.len())[i].kind == entries(cards@, cards@.len())[j].kind,
    ensures
        exists|a: int, b: int|
            0 <= a < b < r@.len() && (#[trigger] r@[a])@ == entries(cards@, cards@.len())[i] && (
            #[trigger] r@[b])@ == entries(cards@, cards@.len())[j],
{
    let all = entries(cards@, cards@.len());
    let kind = all[i].kind;
    let v = views(r@);
    let usb = of_kind(all, DeviceKind::Usb);
    let inner = of_kind(all, DeviceKind::Internal);
    let other = of_kind(all, DeviceKind::Other);
    assert(v == usb + inner + other);
    lemma_kind_place(all, kind, i);
    lemma_kind_place(all, kind, j);
    lemma_kind_grows(all, kind, i, j);
    let skip: int = match kind {
        DeviceKind::Usb => 0,
        DeviceKind::Internal => usb.len() as int,
        DeviceKind::Other => (usb.len() + inner.len()) as int,
    };
    let a = skip + kind_count(all, kind, i);
    let b = skip + kind_count(all, kind, j);
    assert(v[a] == all[i]);
    assert(v[b] == all[j]);
    assert(v[a] == r@[a]@);
    assert(v[b] == r@[b]@);
}

/// The driver's list holds the ports of the first card, then those of the second, and so on.
pub proof fn law_ports_follow_the_cards(cards: Seq<CardInfo>, n: nat, p: int)
    requires
        n < cards.len(),
        0 <= p < cards[n as int].pcms@.len(),
    ensures
        entries(cards, 0).len() == 0,
        entries(cards, n + 1).len() == entries(cards, n).len() + cards[n as int].pcms@.len(),
        entries(cards, n + 1).take(entries(cards, n).len() as int) == entries(cards, n),
        entries(cards, n + 1)[entries(cards, n).len() + p] == cards[n as int].entry(
            cards[n as int].pcms@[p],
        ),
{
    let card = cards[n as int];
    lemma_card_entries(card, card.pcms@.len(), p);
    let before = entries(cards, n);
    let all = entries(cards, n + 1);
    assert(all == before + card_entries(card, card.pcms@.len()));
    assert(all.take(before.len() as int) =~= before);
}

/// The kind of an entry is told by the card's driver and long name, and an entry shows the fields
/// of its device.
pub proof fn law_entries_have_the_kind_of_their_card(card: CardInfo, pcm: PcmInfo, d: DeviceInfo)
    ensures
        ({
            let text = (match card.driver {
                Some(t) => t@,
                None => Seq::empty(),
            }) + seq![' '] + (match card.longname {
                Some(t) => t@,
                None => Seq::empty(),
            });
            &&& card.entry(pcm).kind == DeviceKind::Usb <==> occurs(
                lower(text),
                seq!['u', 's', 'b'],
            )
            &&& card.entry(pcm).kind != DeviceKind::Other
        }),
        d@.id == d.id@ && d@.name == d.name@ && d@.description == d.description@ && d@.kind
            == d.kind,
{
    reveal_strlit(" ");
    reveal_strlit("usb");
    assert(" "@ =~= seq![' ']);
    assert("usb"@ =~= seq!['u', 's', 'b']);
}

/// A copy of a device shows the same.
pub proof fn law_device_copies_show_the_same(d: DeviceInfo, e: DeviceInfo)
    requires
        call_ensures(DeviceInfo::clone, (&d,), e),
    ensures
        e.id@ == d.id@ && e.name@ == d.name@ && e.description@ == d.description@ && e.kind
            == d.kind,
{
    assert(e@.id == d@.id && e@.name == d@.name && e@.description == d@.description);
}

} // verus!
