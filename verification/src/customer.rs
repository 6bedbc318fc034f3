//! A customer together with the distance from the Dublin office.
use crate::customer_data::{
    lemma_failure_is_final, record_of, records_of, records_of_lines, CustomerData,
    CustomerDataView, ParseError,
};
use crate::lines::{line_views, lines_of, split_lines};
use vstd::prelude::*;

verus! {

/// Why no list of customers could be made.
#[derive(Clone, Copy, Debug, PartialEq, Eq, Structural)]
pub enum InviteError {
    /// A line of the data is no customer record.
    InvalidData(ParseError),
    /// The data has more or fewer lines than distances were given.
    DistanceCount,
}

impl InviteError {
    /// The message that the error is reported with. Invalid data has one
    /// message, whatever is wrong with it.
    pub fn message(&self) -> (r: String)
        ensures
            r@ == (match *self {
                InviteError::InvalidData(_) => "Invalid JSON string"@,
                InviteError::DistanceCount => "One distance is needed for each line"@,
            }),
    {
        match self {
            InviteError::InvalidData(e) => e.message(),
            InviteError::DistanceCount => "One distance is needed for each line".to_owned(),
        }
    }
}

/// A customer and the distance from the Dublin office, in whole kilometres.
#[derive(Debug)]
pub struct Customer {
    pub user_id: i64,
    pub name: String,
    pub distance_from_dublin: i64,
}

/// What a customer holds, with the name as a sequence of characters.
pub ghost struct CustomerView {
    pub user_id: i64,
    pub name: Seq<char>,
    pub distance_from_dublin: i64,
}

impl View for Customer {
    type V = CustomerView;

    open spec fn view(&self) -> CustomerView {
        CustomerView {
            user_id: self.user_id,
            name: self.name@,
            distance_from_dublin: self.distance_from_dublin,
        }
    }
}

/// What the customers of a list hold, one after the other.
pub open spec fn customer_views(customers: Seq<Customer>) -> Seq<CustomerView> {
    Seq::new(customers.len(), |i: int| customers[i]@)
}

/// The customer that a record describes, at the given distance.
pub open spec fn customer_of(record: CustomerDataView, distance: i64) -> CustomerView {
    CustomerView { user_id: record.user_id, name: record.name, distance_from_dublin: distance }
}

/// The customers of `records`, each at the distance that stands at its place
/// in `distances`.
pub open spec fn measured(records: Seq<CustomerDataView>, distances: Seq<i64>) -> Seq<
    CustomerView,
> {
    Seq::new(records.len(), |i: int| customer_of(records[i], distances[i]))
}

/// The customers that a text describes, one to each line, with the distances
/// given line by line.
pub open spec fn customers_of(text: Seq<char>, distances: Seq<i64>) -> Result<
    Seq<CustomerView>,
    InviteError,
> {
    if lines_of(text).len() != distances.len() {
        Err(InviteError::DistanceCount)
    } else {
        match records_of(text) {
            Err(e) => Err(InviteError::InvalidData(e)),
            Ok(records) => Ok(measured(records, distances)),
        }
    }
}

/// What a call that makes a list of customers returned, over views.
pub open spec fn customers_outcome(r: Result<Vec<Customer>, InviteError>) -> Result<
    Seq<CustomerView>,
    InviteError,
> {
    match r {
        Ok(customers) => Ok(customer_views(customers@)),
        Err(e) => Err(e),
    }
}

impl Customer {
    /// The customer of a record, at a distance that the caller has measured
    /// from the record's coordinates.
    pub fn from_data(data: CustomerData, distance: i64) -> (r: Customer)
        ensures
            r@ == customer_of(data@, distance),
    {
        Customer { user_id: data.user_id, name: data.name, distance_from_dublin: distance }
    }

    /// Decodes one line and gives the customer the distance `distance`.
    pub fn from_json(line: &str, distance: i64) -> (r: Result<Customer, ParseError>)
        ensures
            match r {
                Ok(customer) => record_of(line@) matches Ok(record) && customer@ == customer_of(
                    record,
                    distance,
                ),
                Err(e) => record_of(line@) == Err::<CustomerDataView, _>(e),
            },
    {
        match CustomerData::from_json(line) {
            Ok(data) => Ok(Customer::from_data(data, distance)),
            Err(e) => Err(e),
        }
    }

    /// A copy of this customer.
    pub fn duplicate(&self) -> (r: Customer)
        ensures
            r@ == self@,
    {
        Customer {
            user_id: self.user_id,
            name: self.name.clone(),
            distance_from_dublin: self.distance_from_dublin,
        }
    }

    /// Decodes every line of `text` and gives the customer of line `i` the
    /// distance `distances[i]`. Fails where the number of distances is not the
    /// number of lines, and else on the first line that is no record.
    pub fn list_from_json(text: &str, distances: &Vec<i64>) -> (r: Result<
        Vec<Customer>,
        InviteError,
    >)
        ensures
            customers_outcome(r) == customers_of(text@, distances@),
    {
        let lines = split_lines(text);
        if lines.len() != distances.len() {
            return Err(InviteError::DistanceCount);
        }
        let mut customers: Vec<Customer> = Vec::new();
        let ghost mut records: Seq<CustomerDataView> = Seq::empty();
        let mut at: usize = 0;
        proof {
            assert(line_views(lines@).take(0) =~= Seq::empty());
            assert(customer_views(customers@) =~= measured(records, distances@));
        }
        while at < lines.len()
            invariant
                at <= lines.len(),
                lines.len() == distances.len(),
                line_views(lines@) == lines_of(text@),
                records.len() == at,
                customers@.len() == at,
                records_of_lines(line_views(lines@).take(at as int)) == Ok::<_, ParseError>(
                    records,
                ),
                customer_views(customers@) == measured(records, distances@),
            decreases lines.len() - at,
        {
            proof {
                let upto = line_views(lines@).take(at + 1);
                assert(upto.drop_last() =~= line_views(lines@).take(at as int));
                assert(upto.last() == lines@[at as int]@);
            }
            match CustomerData::from_json(lines[at]) {
                Ok(data) => {
                    let ghost before = customer_views(customers@);
                    let ghost earlier = records;
                    proof {
                        records = records.push(data@);
                    }
                    customers.push(Customer::from_data(data, distances[at]));
                    proof {
                        assert forall|i: int| 0 <= i < at + 1 implies customer_views(
                            customers@,
                        )[i] == measured(records, distances@)[i] by {
                            if i < at {
                                assert(customer_views(customers@)[i] == before[i]);
                                assert(before[i] == measured(earlier, distances@)[i]);
                            }
                        }
                        assert(customer_views(customers@) =~= measured(records, distances@));
                    }
                },
                Err(e) => {
                    proof {
                        lemma_failure_is_final(line_views(lines@), at + 1);
                    }
                    return Err(InviteError::InvalidData(e));
                },
            }
            at = at + 1;
        }
        proof {
            assert(line_views(lines@).take(at as int) =~= line_views(lines@));
        }
        Ok(customers)
    }
}

} // verus!
