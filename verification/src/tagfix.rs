//! A remapping table for holyday tags: different sources name the
//! same event under different tags, and these pairs carry each known
//! variant to the tag this crate uses.

use vstd::prelude::*;

verus! {

/// View of one tag remapping: the tag as found, and the tag to use.
pub open spec fn pair_view(p: (String, String)) -> (Seq<char>, Seq<char>) {
    (p.0@, p.1@)
}

/// View of a whole remapping table.
pub open spec fn pairs_view(s: Seq<(String, String)>) -> Seq<(Seq<char>, Seq<char>)> {
    s.map_values(|p: (String, String)| pair_view(p))
}

/// The tag remapping table: each pair carries the tag on the left to
/// the tag on the right.
pub open spec fn tag_fixes_spec() -> Seq<(Seq<char>, Seq<char>)> {
    Seq::empty()
        .push(("óscar romero"@, "oscar romero"@))
        .push(("aelred"@, "aelred of hexham"@))
        .push(("aidan of lindisfarne"@, "aidan"@))
        .push(("all saints"@, "all saints' day"@))
        .push(("ambrose of milan"@, "ambrose"@))
        .push(("andrew"@, "andrew the apostle"@))
        .push(("ansgar"@, "anskar"@))
        .push(("barnabas"@, "barnabas the apostle"@))
        .push(("bartholomew"@, "bartholomew the apostle"@))
        .push(("bede of jarorw"@, "bede"@))
        .push(("christmas"@, "christmas day"@))
        .push(("the nativity of jesus christ"@, "christmas day"@))
        .push(("commemoration of all faithful departed"@, "commemoration of the faithful departed (all souls' day)"@))
        .push(("cuthbert of lindisfarne"@, "cuthbert"@))
        .push(("cyprian of carthage"@, "cyprian"@))
        .push(("hilda of whitby"@, "hilda"@))
        .push(("hildegard of bingen"@, "hildegard"@))
        .push(("irenaeus"@, "irenæus"@))
        .push(("julian"@, "julian of norwich"@))
        .push(("justin martyr"@, "justin"@))
        .push(("lawrence"@, "laurence"@))
        .push(("leo i"@, "leo the great"@))
        .push(("leo of rome"@, "leo the great"@))
        .push(("luke"@, "luke the evangelist"@))
        .push(("mark"@, "mark the evangelist"@))
        .push(("martin of tours"@, "martin"@))
        .push(("monnica of hippo"@, "monica"@))
        .push(("the presentation of christ in the temple"@, "the presentation of christ in the temple (candlemas)"@))
        .push(("the presentation of our lord jesus christ in the temple"@, "the presentation of christ in the temple (candlemas)"@))
        .push(("the transfiguration of our lord jesus christ"@, "the transfiguration of our lord"@))
        .push(("thomas"@, "thomas the apostle"@))
        .push(("saint thomas the apostle"@, "thomas the apostle"@))
        .push(("saint andrew"@, "andrew the apostle"@))
        .push(("saint andrew the apostle"@, "andrew the apostle"@))
        .push(("saint mark the evangelist"@, "mark the evangelist"@))
        .push(("saint luke the evangelist"@, "luke the evangelist"@))
        .push(("transfiguration of jesus"@, "the transfiguration of our lord"@))
        .push(("bede"@, "the venerable bede"@))
        .push(("the visitation of the blessed virgin mary"@, "the visit of the blessed virgin mary to elizabeth"@))
        .push(("the visitation of the blessed virgin mary to elizabeth"@, "the visit of the blessed virgin mary to elizabet"@))
        .push(("saint barnabas the apostle"@, "barnabas the apostle"@))
        .push(("saint bartholomew the apostle"@, "bartholomew the apostle"@))
        .push(("saint dominic"@, "dominic"@))
        .push(("saint john"@, "john"@))
        .push(("saint joseph"@, "joseph"@))
        .push(("saint jude"@, "jude"@))
        .push(("saint mary magdalene"@, "mary magdalene"@))
        .push(("saint mary the virgin"@, "mary the virgin"@))
        .push(("saint matthew"@, "matthew"@))
        .push(("matthew the evangelist"@, "matthew"@))
        .push(("saint matthias the apostle"@, "matthias the apostle"@))
        .push(("matthias"@, "matthias the apostle"@))
        .push(("saint michael and all angels"@, "michael and all angels"@))
        .push(("michael"@, "michael and all angels"@))
        .push(("saint paul the apostle"@, "paul"@))
        .push(("saint peter and saint paul"@, "peter and paul"@))
        .push(("saint stephen"@, "stephen"@))
        .push(("the annunciation of our lord jesus christ to the blessed virgin mary"@, "the annunciation of our lord to the blessed virgin mary"@))
        .push(("the annunciation to the blessed virgin mary"@, "the annunciation of our lord to the blessed virgin mary"@))
        .push(("annunciation"@, "the annunciation of our lord to the blessed virgin mary"@))
        .push(("the epiphany of our lord jesus christ"@, "the epiphany"@))
        .push(("the visit of the blessed virgin mary to elizabet"@, "the visit of the blessed virgin mary to elizabeth"@))
        .push(("jeanne d’arc"@, "joan of arc"@))
        .push(("john the apostle"@, "john"@))
        .push(("john wycliffe"@, "john wyclif"@))
        .push(("nicholas of myra"@, "nicholas"@))
        .push(("remegius"@, "remigius"@))
        .push(("scholastica of nursia"@, "scholastica"@))
        .push(("teresa of ávila"@, "teresa of avila"@))
        .push(("willibrord"@, "willibrord of york"@))
        .push(("oswald of northumbria"@, "oswald"@))
        .push(("ninian of galloway"@, "ninian"@))
        .push(("joseph"@, "joseph of nazareth"@))
        .push(("ignatius of antioch"@, "ignatius"@))
        .push(("holy cross"@, "holy cross day"@))
        .push(("hilary of poitiers"@, "hilary"@))
        .push(("all souls' day"@, "commemoration of the faithful departed (all souls' day)"@))
}

/// Append one remapping to the table being built.
fn push_fix(tf: &mut Vec<(String, String)>, from: &str, to: &str)
    ensures
        pairs_view(final(tf)@) == pairs_view(old(tf)@).push((from@, to@)),
{
    tf.push((from.to_owned(), to.to_owned()));
    proof {
        assert(pairs_view(tf@) =~= pairs_view(old(tf)@).push((from@, to@)));
    }
}

/// Tags that are remapped to other tags, used when two different
/// names stand for the same event in different calendars.
pub fn tag_fixes() -> (r: Vec<(String, String)>)
    ensures
        pairs_view(r@) == tag_fixes_spec(),
{
    let mut tf: Vec<(String, String)> = Vec::new();
    proof {
        assert(pairs_view(tf@) =~= Seq::<(Seq<char>, Seq<char>)>::empty());
    }
    push_fix(&mut tf, "óscar romero", "oscar romero");
    push_fix(&mut tf, "aelred", "aelred of hexham");
    push_fix(&mut tf, "aidan of lindisfarne", "aidan");
    push_fix(&mut tf, "all saints", "all saints' day");
    push_fix(&mut tf, "ambrose of milan", "ambrose");
    push_fix(&mut tf, "andrew", "andrew the apostle");
    push_fix(&mut tf, "ansgar", "anskar");
    push_fix(&mut tf, "barnabas", "barnabas the apostle");
    push_fix(&mut tf, "bartholomew", "bartholomew the apostle");
    push_fix(&mut tf, "bede of jarorw", "bede");
    push_fix(&mut tf, "christmas", "christmas day");
    push_fix(&mut tf, "the nativity of jesus christ", "christmas day");
    push_fix(&mut tf, "commemoration of all faithful departed", "commemoration of the faithful departed (all souls' day)");
    push_fix(&mut tf, "cuthbert of lindisfarne", "cuthbert");
    push_fix(&mut tf, "cyprian of carthage", "cyprian");
    push_fix(&mut tf, "hilda of whitby", "hilda");
    push_fix(&mut tf, "hildegard of bingen", "hildegard");
    push_fix(&mut tf, "irenaeus", "irenæus");
    push_fix(&mut tf, "julian", "julian of norwich");
    push_fix(&mut tf, "justin martyr", "justin");
    push_fix(&mut tf, "lawrence", "laurence");
    push_fix(&mut tf, "leo i", "leo the great");
    push_fix(&mut tf, "leo of rome", "leo the great");
    push_fix(&mut tf, "luke", "luke the evangelist");
    push_fix(&mut tf, "mark", "mark the evangelist");
    push_fix(&mut tf, "martin of tours", "martin");
    push_fix(&mut tf, "monnica of hippo", "monica");
    push_fix(&mut tf, "the presentation of christ in the temple", "the presentation of christ in the temple (candlemas)");
    push_fix(&mut tf, "the presentation of our lord jesus christ in the temple", "the presentation of christ in the temple (candlemas)");
    push_fix(&mut tf, "the transfiguration of our lord jesus christ", "the transfiguration of our lord");
    push_fix(&mut tf, "thomas", "thomas the apostle");
    push_fix(&mut tf, "saint thomas the apostle", "thomas the apostle");
    push_fix(&mut tf, "saint andrew", "andrew the apostle");
    push_fix(&mut tf, "saint andrew the apostle", "andrew the apostle");
    push_fix(&mut tf, "saint mark the evangelist", "mark the evangelist");
    push_fix(&mut tf, "saint luke the evangelist", "luke the evangelist");
    push_fix(&mut tf, "transfiguration of jesus", "the transfiguration of our lord");
    push_fix(&mut tf, "bede", "the venerable bede");
    push_fix(&mut tf, "the visitation of the blessed virgin mary", "the visit of the blessed virgin mary to elizabeth");
    push_fix(&mut tf, "the visitation of the blessed virgin mary to elizabeth", "the visit of the blessed virgin mary to elizabet");
    push_fix(&mut tf, "saint barnabas the apostle", "barnabas the apostle");
    push_fix(&mut tf, "saint bartholomew the apostle", "bartholomew the apostle");
    push_fix(&mut tf, "saint dominic", "dominic");
    push_fix(&mut tf, "saint john", "john");
    push_fix(&mut tf, "saint joseph", "joseph");
    push_fix(&mut tf, "saint jude", "jude");
    push_fix(&mut tf, "saint mary magdalene", "mary magdalene");
    push_fix(&mut tf, "saint mary the virgin", "mary the virgin");
    push_fix(&mut tf, "saint matthew", "matthew");
    push_fix(&mut tf, "matthew the evangelist", "matthew");
    push_fix(&mut tf, "saint matthias the apostle", "matthias the apostle");
    push_fix(&mut tf, "matthias", "matthias the apostle");
    push_fix(&mut tf, "saint michael and all angels", "michael and all angels");
    push_fix(&mut tf, "michael", "michael and all angels");
    push_fix(&mut tf, "saint paul the apostle", "paul");
    push_fix(&mut tf, "saint peter and saint paul", "peter and paul");
    push_fix(&mut tf, "saint stephen", "stephen");
    push_fix(&mut tf, "the annunciation of our lord jesus christ to the blessed virgin mary", "the annunciation of our lord to the blessed virgin mary");
    push_fix(&mut tf, "the annunciation to the blessed virgin mary", "the annunciation of our lord to the blessed virgin mary");
    push_fix(&mut tf, "annunciation", "the annunciation of our lord to the blessed virgin mary");
    push_fix(&mut tf, "the epiphany of our lord jesus christ", "the epiphany");
    push_fix(&mut tf, "the visit of the blessed virgin mary to elizabet", "the visit of the blessed virgin mary to elizabeth");
    push_fix(&mut tf, "jeanne d’arc", "joan of arc");
    push_fix(&mut tf, "john the apostle", "john");
    push_fix(&mut tf, "john wycliffe", "john wyclif");
    push_fix(&mut tf, "nicholas of myra", "nicholas");
    push_fix(&mut tf, "remegius", "remigius");
    push_fix(&mut tf, "scholastica of nursia", "scholastica");
    push_fix(&mut tf, "teresa of ávila", "teresa of avila");
    push_fix(&mut tf, "willibrord", "willibrord of york");
    push_fix(&mut tf, "oswald of northumbria", "oswald");
    push_fix(&mut tf, "ninian of galloway", "ninian");
    push_fix(&mut tf, "joseph", "joseph of nazareth");
    push_fix(&mut tf, "ignatius of antioch", "ignatius");
    push_fix(&mut tf, "holy cross", "holy cross day");
    push_fix(&mut tf, "hilary of poitiers", "hilary");
    push_fix(&mut tf, "all souls' day", "commemoration of the faithful departed (all souls' day)");
    tf
}

} // verus!
