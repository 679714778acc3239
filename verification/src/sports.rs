//! The sports the aggregator publishes, each with its listing-page URL.

use vstd::prelude::*;

verus! {

/// One sport and the address of its listing page.
#[derive(Clone, Copy, Debug)]
pub struct Sport {
    pub name: &'static str,
    pub url: &'static str,
}

impl Sport {
    /// Pairs a sport name with its listing-page URL.
    pub fn new(name: &'static str, url: &'static str) -> (r: Sport)
        ensures
            r.name@ == name@,
            r.url@ == url@,
    {
        Sport { name, url }
    }
}

/// Every sport the aggregator publishes.
pub fn all_sports() -> (r: Vec<Sport>)
    ensures
        r@.len() == 38,
{
    let mut out: Vec<Sport> = Vec::new();
    out.push(Sport::new("Football", "https://reddit3.sportshub.stream/"));
    out.push(Sport::new("AmericanFootball", "https://football.sportshub.stream/"));
    out.push(Sport::new("Basketball", "https://basketball2.sportshub.stream/"));
    out.push(Sport::new("Baseball", "https://baseball.sportshub.stream/"));
    out.push(Sport::new("Hockey", "https://hockey.sportshub.stream"));
    out.push(Sport::new("Tennis", "https://tennis.sportshub.stream/"));
    out.push(Sport::new("Boxing", "https://boxing1.sportshub.stream/"));
    out.push(Sport::new("Fights", "https://mma.sportshub.stream/"));
    out.push(Sport::new("Motorsports", "https://motorsport.sportshub.stream/"));
    out.push(Sport::new("HorseRacing", "https://sportshub.stream/horse-racing-streams/"));
    out.push(Sport::new("Rugby", "https://rugby.sportshub.stream/"));
    out.push(Sport::new("RugbyUnion", "https://sportshub.stream/rugby-union-streams/"));
    out.push(Sport::new("RugbySevens", "https://sportshub.stream/rugby-sevens-streams/"));
    out.push(Sport::new("Cycling", "https://cycling.sportshub.stream/"));
    out.push(Sport::new("Cricket", "https://cricket.sportshub.stream/"));
    out.push(Sport::new("Golf", "https://golf.sportshub.stream/"));
    out.push(Sport::new("AFL", "https://afl.sportshub.stream/"));
    out.push(Sport::new("Volleyball", "https://volleyball.sportshub.stream/"));
    out.push(Sport::new("Snooker", "https://snooker.sportshub.stream/"));
    out.push(Sport::new("Darts", "https://darts1.sportshub.stream/"));
    out.push(Sport::new("Watersports", "https://sportshub.stream/water-sports-streams/"));
    out.push(Sport::new("SummerSports", "https://sportshub.stream/summer-sports-streams/"));
    out.push(Sport::new("BeachSports", "https://sportshub.stream/beach-soccer-streams/"));
    out.push(Sport::new("Esports", "https://sportshub.stream/esports-streams/"));
    out.push(Sport::new("Handball", "https://handball.sportshub.stream/"));
    out.push(Sport::new("Athletics", "https://sportshub.stream/athletics-streams/"));
    out.push(Sport::new("Triathlon", "https://sportshub.stream/thriatlon-streams/"));
    out.push(Sport::new("BeachVolley", "https://sportshub.stream/beach-volley-streams/"));
    out.push(Sport::new("WaterPolo", "https://sportshub.stream/water-polo-streams/"));
    out.push(Sport::new("Badminton", "https://badminton.sportshub.stream/"));
    out.push(Sport::new("Floorball", "https://sportshub.stream/floorball-streams/"));
    out.push(Sport::new("FieldHockey", "https://sportshub.stream/field-hockey-streams/"));
    out.push(Sport::new("TableTennis", "https://sportshub.stream/table-tennis-streams/"));
    out.push(Sport::new("Rowing", "https://sportshub.stream/rowing-streams/"));
    out.push(Sport::new("Futsal", "https://sportshub.stream/futsal-streams/"));
    out.push(Sport::new("Netball", "https://sportshub.stream/netball-streams/"));
    out.push(Sport::new("WinterSports", "https://sportshub.stream/winter-sports-streams/"));
    out.push(Sport::new("Curling", "https://sportshub.stream/curling-streams/"));
    out
}

} // verus!
